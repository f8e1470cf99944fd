use vstd::prelude::*;

use crate::connection::Connection;

verus! {

/// The properties that every task module carries besides its own parameters.
#[derive(PartialEq, Eq, Structural, Clone, Copy, Debug)]
pub enum TaskProperty {
    ChangedWhen,
    Delay,
    Name,
    Register,
    Retry,
    When,
}

/// The requests of one reconciliation cycle, in the order they may be issued.
#[derive(PartialEq, Eq, Structural, Clone, Copy, Debug)]
pub enum TaskRequestType {
    Validate,
    Query,
    Create,
    Modify,
    Remove,
}

pub struct TaskRequest {
    pub request_type: TaskRequestType,
}

/// What a module reports for a request.
#[derive(PartialEq, Eq, Structural, Clone, Copy, Debug)]
pub enum TaskStatus {
    IsValidated,
    Invalid,
    NeedsCreation,
    NeedsModification,
    NeedsRemoval,
    IsMatched,
    IsCreated,
    IsModified,
    IsRemoved,
    NotSupported,
    Failed,
}

pub struct TaskResponse {
    pub status: TaskStatus,
    /// Whether the host was actually changed; meaningful after a mutation.
    pub changed: bool,
    pub msg: Option<String>,
}

/// What a module invocation gets besides the request: the host and its connection.
pub struct TaskHandle<C: Connection> {
    pub host: String,
    pub connection: C,
}

impl<C: Connection> TaskHandle<C> {
    pub fn respond(&self, status: TaskStatus, changed: bool, msg: Option<String>) -> (r: TaskResponse)
        ensures
            r.status == status,
            r.changed == changed,
            r.msg == msg,
    {
        TaskResponse { status, changed, msg }
    }

    pub fn is_validated(&self, _request: &TaskRequest) -> (r: TaskResponse)
        ensures
            r.status == TaskStatus::IsValidated,
            !r.changed,
            r.msg is None,
    {
        self.respond(TaskStatus::IsValidated, false, None)
    }

    pub fn needs_creation(&self, _request: &TaskRequest) -> (r: TaskResponse)
        ensures
            r.status == TaskStatus::NeedsCreation,
            !r.changed,
            r.msg is None,
    {
        self.respond(TaskStatus::NeedsCreation, false, None)
    }

    pub fn is_matched(&self, _request: &TaskRequest) -> (r: TaskResponse)
        ensures
            r.status == TaskStatus::IsMatched,
            !r.changed,
            r.msg is None,
    {
        self.respond(TaskStatus::IsMatched, false, None)
    }

    pub fn is_created(&self, _request: &TaskRequest, msg: Option<String>) -> (r: TaskResponse)
        ensures
            r.status == TaskStatus::IsCreated,
            r.changed,
            r.msg == msg,
    {
        self.respond(TaskStatus::IsCreated, true, msg)
    }

    pub fn not_supported(&self, _request: &TaskRequest) -> (r: TaskResponse)
        ensures
            r.status == TaskStatus::NotSupported,
            !r.changed,
            r.msg is None,
    {
        self.respond(TaskStatus::NotSupported, false, None)
    }
}

/// A resource module: its common properties and its answer to each request.
pub trait IsTask {
    fn get_property(&self, property: TaskProperty) -> String;

    fn dispatch<C: Connection>(&self, handle: &TaskHandle<C>, request: &TaskRequest) -> TaskResponse;
}

pub open spec fn text_of(value: Option<String>) -> Seq<char> {
    match value {
        Some(s) => s@,
        None => Seq::empty(),
    }
}

/// The text of an optional property, empty where it is not set.
pub fn get_property(value: &Option<String>) -> (r: String)
    ensures
        r@ == text_of(*value),
{
    match value {
        Some(s) => s.clone(),
        None => String::new(),
    }
}

/// How one reconciliation cycle ended.
#[derive(PartialEq, Eq, Structural, Clone, Copy, Debug)]
pub enum TaskOutcome {
    /// The parameters were refused.
    Invalid,
    /// The host already held the desired state; nothing was mutated.
    Matched,
    /// A mutation ran; `changed` says whether the host actually changed.
    Mutated { changed: bool },
    /// The module cannot perform the mutation that was needed.
    Unsupported,
    /// The module reported a failure, or answered out of protocol.
    Failed,
}

/// The next move of the protocol after a request and the module's answer.
#[derive(PartialEq, Eq, Structural, Clone, Copy, Debug)]
pub enum DispatchStep {
    Issue(TaskRequestType),
    Done(TaskOutcome),
}

pub open spec fn step_spec(after: TaskRequestType, status: TaskStatus, changed: bool) -> DispatchStep {
    match after {
        TaskRequestType::Validate => match status {
            TaskStatus::IsValidated => DispatchStep::Issue(TaskRequestType::Query),
            TaskStatus::Invalid => DispatchStep::Done(TaskOutcome::Invalid),
            _ => DispatchStep::Done(TaskOutcome::Failed),
        },
        TaskRequestType::Query => match status {
            TaskStatus::NeedsCreation => DispatchStep::Issue(TaskRequestType::Create),
            TaskStatus::NeedsModification => DispatchStep::Issue(TaskRequestType::Modify),
            TaskStatus::NeedsRemoval => DispatchStep::Issue(TaskRequestType::Remove),
            TaskStatus::IsMatched => DispatchStep::Done(TaskOutcome::Matched),
            _ => DispatchStep::Done(TaskOutcome::Failed),
        },
        TaskRequestType::Create => match status {
            TaskStatus::IsCreated => DispatchStep::Done(TaskOutcome::Mutated { changed }),
            TaskStatus::NotSupported => DispatchStep::Done(TaskOutcome::Unsupported),
            _ => DispatchStep::Done(TaskOutcome::Failed),
        },
        TaskRequestType::Modify => match status {
            TaskStatus::IsModified => DispatchStep::Done(TaskOutcome::Mutated { changed }),
            TaskStatus::NotSupported => DispatchStep::Done(TaskOutcome::Unsupported),
            _ => DispatchStep::Done(TaskOutcome::Failed),
        },
        TaskRequestType::Remove => match status {
            TaskStatus::IsRemoved => DispatchStep::Done(TaskOutcome::Mutated { changed }),
            TaskStatus::NotSupported => DispatchStep::Done(TaskOutcome::Unsupported),
            _ => DispatchStep::Done(TaskOutcome::Failed),
        },
    }
}

/// Decides the next request, or the end of the cycle, from the request just made
/// and the module's answer to it.
pub fn next_step(after: TaskRequestType, status: TaskStatus, changed: bool) -> (r: DispatchStep)
    ensures
        r == step_spec(after, status, changed),
{
    match after {
        TaskRequestType::Validate => match status {
            TaskStatus::IsValidated => DispatchStep::Issue(TaskRequestType::Query),
            TaskStatus::Invalid => DispatchStep::Done(TaskOutcome::Invalid),
            _ => DispatchStep::Done(TaskOutcome::Failed),
        },
        TaskRequestType::Query => match status {
            TaskStatus::NeedsCreation => DispatchStep::Issue(TaskRequestType::Create),
            TaskStatus::NeedsModification => DispatchStep::Issue(TaskRequestType::Modify),
            TaskStatus::NeedsRemoval => DispatchStep::Issue(TaskRequestType::Remove),
            TaskStatus::IsMatched => DispatchStep::Done(TaskOutcome::Matched),
            _ => DispatchStep::Done(TaskOutcome::Failed),
        },
        TaskRequestType::Create => match status {
            TaskStatus::IsCreated => DispatchStep::Done(TaskOutcome::Mutated { changed }),
            TaskStatus::NotSupported => DispatchStep::Done(TaskOutcome::Unsupported),
            _ => DispatchStep::Done(TaskOutcome::Failed),
        },
        TaskRequestType::Modify => match status {
            TaskStatus::IsModified => DispatchStep::Done(TaskOutcome::Mutated { changed }),
            TaskStatus::NotSupported => DispatchStep::Done(TaskOutcome::Unsupported),
            _ => DispatchStep::Done(TaskOutcome::Failed),
        },
        TaskRequestType::Remove => match status {
            TaskStatus::IsRemoved => DispatchStep::Done(TaskOutcome::Mutated { changed }),
            TaskStatus::NotSupported => DispatchStep::Done(TaskOutcome::Unsupported),
            _ => DispatchStep::Done(TaskOutcome::Failed),
        },
    }
}

/// The trace of one reconciliation cycle: each request issued, the status and
/// change flag that came back for it, and how the cycle ended.
pub struct DispatchRecord {
    pub requests: Vec<TaskRequestType>,
    pub statuses: Vec<TaskStatus>,
    pub changes: Vec<bool>,
    pub outcome: TaskOutcome,
}

/// The trace follows the protocol: it starts with `Validate`, each later request
/// is the one that `next_step` chose, and the outcome is the one it gave last.
pub open spec fn follows_protocol(
    requests: Seq<TaskRequestType>,
    statuses: Seq<TaskStatus>,
    changes: Seq<bool>,
    outcome: TaskOutcome,
) -> bool {
    &&& requests.len() >= 1
    &&& statuses.len() == requests.len()
    &&& changes.len() == requests.len()
    &&& requests[0] == TaskRequestType::Validate
    &&& forall|i: int|
        0 <= i < requests.len() - 1 ==> step_spec(requests[i], #[trigger] statuses[i], changes[i])
            == DispatchStep::Issue(requests[i + 1])
    &&& step_spec(requests.last(), statuses.last(), changes.last()) == DispatchStep::Done(outcome)
}

/// Drives `task` through one reconciliation cycle against the host of `handle`.
pub fn run_task<T: IsTask, C: Connection>(task: &T, handle: &TaskHandle<C>) -> (r: DispatchRecord)
    ensures
        follows_protocol(r.requests@, r.statuses@, r.changes@, r.outcome),
        r.requests@.len() <= 3,
{
    let mut requests: Vec<TaskRequestType> = Vec::new();
    let mut statuses: Vec<TaskStatus> = Vec::new();
    let mut changes: Vec<bool> = Vec::new();
    let mut current = TaskRequestType::Validate;
    loop
        invariant
            requests@.len() == statuses@.len(),
            changes@.len() == statuses@.len(),
            requests@.len() == 0 ==> current == TaskRequestType::Validate,
            requests@.len() >= 1 ==> requests@[0] == TaskRequestType::Validate,
            requests@.len() == 1 ==> current == TaskRequestType::Query,
            requests@.len() == 2 ==> (current == TaskRequestType::Create || current
                == TaskRequestType::Modify || current == TaskRequestType::Remove),
            requests@.len() <= 2,
            requests@.len() >= 1 ==> step_spec(requests@.last(), statuses@.last(), changes@.last())
                == DispatchStep::Issue(current),
            forall|i: int|
                0 <= i < requests@.len() - 1 ==> step_spec(requests@[i], statuses@[i], changes@[i])
                    == DispatchStep::Issue(#[trigger] requests@[i + 1]),
        decreases 3 - requests@.len(),
    {
        let request = TaskRequest { request_type: current };
        let response = task.dispatch(handle, &request);
        let ghost prev = requests@;
        requests.push(current);
        statuses.push(response.status);
        changes.push(response.changed);
        match next_step(current, response.status, response.changed) {
            DispatchStep::Issue(next) => {
                proof {
                    assert forall|i: int|
                        0 <= i < requests@.len() - 1 implies step_spec(requests@[i], statuses@[i], changes@[i])
                            == DispatchStep::Issue(#[trigger] requests@[i + 1]) by {
                        if i < prev.len() - 1 {
                        }
                    }
                }
                current = next;
            },
            DispatchStep::Done(outcome) => {
                proof {
                    assert forall|i: int|
                        0 <= i < requests@.len() - 1 implies step_spec(requests@[i], statuses@[i], changes@[i])
                            == DispatchStep::Issue(#[trigger] requests@[i + 1]) by {
                        if i < prev.len() - 1 {
                        }
                    }
                }
                return DispatchRecord { requests, statuses, changes, outcome };
            },
        }
    }
}

/// When the query reports that the host already holds the desired state, no
/// `Create`, `Modify` or `Remove` is issued and the cycle ends as matched.
pub proof fn lemma_matched_never_mutates(
    requests: Seq<TaskRequestType>,
    statuses: Seq<TaskStatus>,
    changes: Seq<bool>,
    outcome: TaskOutcome,
)
    requires
        follows_protocol(requests, statuses, changes, outcome),
        requests.len() >= 2,
        statuses[1] == TaskStatus::IsMatched,
    ensures
        requests =~= seq![TaskRequestType::Validate, TaskRequestType::Query],
        outcome == TaskOutcome::Matched,
{
    assert(step_spec(requests[0], statuses[0], changes[0]) == DispatchStep::Issue(requests[1]));
    if requests.len() > 2 {
        assert(step_spec(requests[1], statuses[1], changes[1]) == DispatchStep::Issue(requests[2]));
    }
}

/// When the query reports that the resource needs creating, `Create` is issued
/// exactly once, as the last request, and a created answer ends the cycle with
/// the change flag that the module reported.
pub proof fn lemma_creation_issues_one_create(
    requests: Seq<TaskRequestType>,
    statuses: Seq<TaskStatus>,
    changes: Seq<bool>,
    outcome: TaskOutcome,
)
    requires
        follows_protocol(requests, statuses, changes, outcome),
        requests.len() >= 2,
        statuses[1] == TaskStatus::NeedsCreation,
    ensures
        requests =~= seq![TaskRequestType::Validate, TaskRequestType::Query, TaskRequestType::Create],
        statuses[2] == TaskStatus::IsCreated ==> outcome == (TaskOutcome::Mutated { changed: changes[2] }),
{
    assert(step_spec(requests[0], statuses[0], changes[0]) == DispatchStep::Issue(requests[1]));
    if requests.len() == 2 {
        assert(step_spec(requests[1], statuses[1], changes[1]) == DispatchStep::Done(outcome));
    }
    assert(step_spec(requests[1], statuses[1], changes[1]) == DispatchStep::Issue(requests[2]));
    if requests.len() > 3 {
        assert(step_spec(requests[2], statuses[2], changes[2]) == DispatchStep::Issue(requests[3]));
    }
}

} // verus!
