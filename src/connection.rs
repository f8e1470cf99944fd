use vstd::prelude::*;

verus! {

/// What a command run on a host gave back.
pub struct ConnectionCommandResult {
    pub data: String,
    pub exit_status: i32,
}

/// A channel to one host, implemented by each transport.
pub trait Connection {
    fn connect(&mut self);

    fn put_file(&self, data: String, remote_path: String, mode: Option<i32>);

    fn run_command(&self, command: String) -> ConnectionCommandResult;
}

} // verus!
