use jetporch::connection::{Connection, ConnectionCommandResult};
use jetporch::echo::Echo;
use jetporch::loader::{classify_source, LoadError, SourceKind};
use jetporch::tasks::{
    get_property, next_step, run_task, DispatchStep, IsTask, TaskHandle, TaskOutcome, TaskProperty,
    TaskRequest, TaskRequestType, TaskResponse, TaskStatus,
};
use std::cell::Cell;

struct NullConnection;

impl Connection for NullConnection {
    fn connect(&mut self) {}

    fn put_file(&self, _data: String, _remote_path: String, _mode: Option<i32>) {}

    fn run_command(&self, _command: String) -> ConnectionCommandResult {
        ConnectionCommandResult { data: String::new(), exit_status: 0 }
    }
}

fn handle() -> TaskHandle<NullConnection> {
    TaskHandle { host: "h1".to_string(), connection: NullConnection }
}

fn echo(msg: &str) -> Echo {
    Echo {
        msg: msg.to_string(),
        changed_when: None,
        delay: Some("5".to_string()),
        name: Some("say hi".to_string()),
        register: None,
        retry: None,
        when: Some("true".to_string()),
    }
}

/// A module whose query answer is fixed, counting the mutations it is asked for.
struct Scripted {
    query: TaskStatus,
    changed: bool,
    mutations: Cell<u32>,
}

impl IsTask for Scripted {
    fn get_property(&self, _property: TaskProperty) -> String {
        String::new()
    }

    fn dispatch<C: Connection>(&self, handle: &TaskHandle<C>, request: &TaskRequest) -> TaskResponse {
        match request.request_type {
            TaskRequestType::Validate => handle.is_validated(request),
            TaskRequestType::Query if self.query == TaskStatus::IsMatched => handle.is_matched(request),
            TaskRequestType::Query => handle.respond(self.query, false, None),
            TaskRequestType::Create => {
                self.mutations.set(self.mutations.get() + 1);
                handle.respond(TaskStatus::IsCreated, self.changed, None)
            },
            TaskRequestType::Modify | TaskRequestType::Remove => {
                self.mutations.set(self.mutations.get() + 1);
                handle.not_supported(request)
            },
        }
    }
}

#[test]
fn echo_properties() {
    let e = echo("hello");
    assert_eq!(e.get_property(TaskProperty::Name), "say hi");
    assert_eq!(e.get_property(TaskProperty::Delay), "5");
    assert_eq!(e.get_property(TaskProperty::When), "true");
    assert_eq!(e.get_property(TaskProperty::Register), "");
    assert_eq!(e.get_property(TaskProperty::Retry), "");
    assert_eq!(e.get_property(TaskProperty::ChangedWhen), "");
    assert_eq!(get_property(&None), "");
    assert_eq!(get_property(&Some("x".to_string())), "x");
}

#[test]
fn echo_dispatch_answers() {
    let e = echo("hello");
    let h = handle();
    let ask = |t| e.dispatch(&h, &TaskRequest { request_type: t });
    for (t, status) in [
        (TaskRequestType::Validate, TaskStatus::IsValidated),
        (TaskRequestType::Query, TaskStatus::NeedsCreation),
        (TaskRequestType::Modify, TaskStatus::NotSupported),
        (TaskRequestType::Remove, TaskStatus::NotSupported),
    ] {
        let r = ask(t);
        assert_eq!(r.status, status);
        assert!(!r.changed);
        assert_eq!(r.msg, None);
    }
    let created = ask(TaskRequestType::Create);
    assert_eq!(created.status, TaskStatus::IsCreated);
    assert!(created.changed);
    assert_eq!(created.msg, Some("hello".to_string()));
    assert_eq!(ask(TaskRequestType::Modify).status, TaskStatus::NotSupported);
    assert_eq!(ask(TaskRequestType::Remove).status, TaskStatus::NotSupported);
}

#[test]
fn echo_cycle_creates_once() {
    let record = run_task(&echo("hello"), &handle());
    assert_eq!(record.requests, vec![TaskRequestType::Validate, TaskRequestType::Query, TaskRequestType::Create]);
    assert_eq!(record.outcome, TaskOutcome::Mutated { changed: true });
}

#[test]
fn matched_query_mutates_nothing() {
    let task = Scripted { query: TaskStatus::IsMatched, changed: true, mutations: Cell::new(0) };
    let record = run_task(&task, &handle());
    assert_eq!(record.requests, vec![TaskRequestType::Validate, TaskRequestType::Query]);
    assert_eq!(record.outcome, TaskOutcome::Matched);
    assert_eq!(task.mutations.get(), 0);
}

#[test]
fn needs_creation_creates_exactly_once() {
    for changed in [true, false] {
        let task = Scripted { query: TaskStatus::NeedsCreation, changed, mutations: Cell::new(0) };
        let record = run_task(&task, &handle());
        assert_eq!(record.requests, vec![TaskRequestType::Validate, TaskRequestType::Query, TaskRequestType::Create]);
        assert_eq!(record.outcome, TaskOutcome::Mutated { changed });
        assert_eq!(task.mutations.get(), 1);
    }
}

#[test]
fn unsupported_mutation_is_an_outcome() {
    let task = Scripted { query: TaskStatus::NeedsRemoval, changed: false, mutations: Cell::new(0) };
    let record = run_task(&task, &handle());
    assert_eq!(record.requests, vec![TaskRequestType::Validate, TaskRequestType::Query, TaskRequestType::Remove]);
    assert_eq!(record.outcome, TaskOutcome::Unsupported);
    assert_eq!(record.statuses[2], TaskStatus::NotSupported);
}

#[test]
fn protocol_steps() {
    assert_eq!(next_step(TaskRequestType::Validate, TaskStatus::IsValidated, false), DispatchStep::Issue(TaskRequestType::Query));
    assert_eq!(next_step(TaskRequestType::Validate, TaskStatus::Invalid, false), DispatchStep::Done(TaskOutcome::Invalid));
    assert_eq!(next_step(TaskRequestType::Query, TaskStatus::NeedsCreation, false), DispatchStep::Issue(TaskRequestType::Create));
    assert_eq!(next_step(TaskRequestType::Query, TaskStatus::NeedsModification, false), DispatchStep::Issue(TaskRequestType::Modify));
    assert_eq!(next_step(TaskRequestType::Query, TaskStatus::NeedsRemoval, false), DispatchStep::Issue(TaskRequestType::Remove));
    assert_eq!(next_step(TaskRequestType::Query, TaskStatus::IsMatched, false), DispatchStep::Done(TaskOutcome::Matched));
    assert_eq!(next_step(TaskRequestType::Query, TaskStatus::IsCreated, true), DispatchStep::Done(TaskOutcome::Failed));
    assert_eq!(next_step(TaskRequestType::Modify, TaskStatus::IsModified, false), DispatchStep::Done(TaskOutcome::Mutated { changed: false }));
    assert_eq!(next_step(TaskRequestType::Create, TaskStatus::Failed, false), DispatchStep::Done(TaskOutcome::Failed));
    assert_eq!(next_step(TaskRequestType::Remove, TaskStatus::NotSupported, false), DispatchStep::Done(TaskOutcome::Unsupported));
}

#[test]
fn source_classification() {
    assert!(matches!(classify_source("inv".to_string(), true, true, false), Ok(SourceKind::Classic)));
    assert!(matches!(classify_source("inv".to_string(), true, true, true), Ok(SourceKind::Classic)));
    assert!(matches!(classify_source("gen".to_string(), false, false, true), Ok(SourceKind::Dynamic)));
    assert!(matches!(classify_source("gen".to_string(), true, false, true), Ok(SourceKind::Dynamic)));
    let r = classify_source("plain.txt".to_string(), false, false, false);
    assert!(matches!(r, Err(LoadError::NotExecutable { ref path }) if path == "plain.txt"));
}
