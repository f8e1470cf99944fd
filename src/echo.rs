use vstd::prelude::*;

use crate::connection::Connection;
use crate::tasks::{
    get_property, text_of, IsTask, TaskHandle, TaskProperty, TaskRequest, TaskRequestType,
    TaskResponse, TaskStatus,
};

verus! {

/// A module that reports a message: there is never anything to inspect, so each
/// cycle creates, carrying the message in its response.
pub struct Echo {
    pub msg: String,
    pub changed_when: Option<String>,
    pub delay: Option<String>,
    pub name: Option<String>,
    pub register: Option<String>,
    pub retry: Option<String>,
    pub when: Option<String>,
}

impl Echo {
    pub open spec fn property_spec(&self, property: TaskProperty) -> Seq<char> {
        match property {
            TaskProperty::ChangedWhen => text_of(self.changed_when),
            TaskProperty::Delay => text_of(self.delay),
            TaskProperty::Register => text_of(self.register),
            TaskProperty::Retry => text_of(self.retry),
            TaskProperty::Name => text_of(self.name),
            TaskProperty::When => text_of(self.when),
        }
    }
}

impl IsTask for Echo {
    fn get_property(&self, property: TaskProperty) -> (r: String)
        ensures
            r@ == self.property_spec(property),
    {
        match property {
            TaskProperty::ChangedWhen => get_property(&self.changed_when),
            TaskProperty::Delay => get_property(&self.delay),
            TaskProperty::Register => get_property(&self.register),
            TaskProperty::Retry => get_property(&self.retry),
            TaskProperty::Name => get_property(&self.name),
            TaskProperty::When => get_property(&self.when),
        }
    }

    fn dispatch<C: Connection>(&self, handle: &TaskHandle<C>, request: &TaskRequest) -> (r: TaskResponse)
        ensures
            request.request_type == TaskRequestType::Validate ==> r.status == TaskStatus::IsValidated
                && !r.changed && r.msg is None,
            request.request_type == TaskRequestType::Query ==> r.status == TaskStatus::NeedsCreation
                && !r.changed && r.msg is None,
            request.request_type == TaskRequestType::Create ==> r.status == TaskStatus::IsCreated
                && r.changed && r.msg == Some(self.msg),
            request.request_type == TaskRequestType::Modify ==> r.status == TaskStatus::NotSupported
                && !r.changed && r.msg is None,
            request.request_type == TaskRequestType::Remove ==> r.status == TaskStatus::NotSupported
                && !r.changed && r.msg is None,
    {
        match request.request_type {
            TaskRequestType::Validate => handle.is_validated(request),
            TaskRequestType::Query => handle.needs_creation(request),
            TaskRequestType::Create => handle.is_created(request, Some(self.msg.clone())),
            TaskRequestType::Modify => handle.not_supported(request),
            TaskRequestType::Remove => handle.not_supported(request),
        }
    }
}

} // verus!
