//! Decisions of the event loop: which index changes a filesystem event
//! asks for, and how a client command is answered.

use vstd::prelude::*;
use crate::index::Index;
use crate::ipc::{IndexEntry, IpcCommand, IpcResponse};
use crate::query::MAX_PARAMETERS;
use crate::serve::{index_answer, query, query_answer};

verus! {

/// The kinds of change that one filesystem event reports.
#[derive(Clone, Copy, Debug, PartialEq, Eq, Structural)]
pub struct EventFlags {
    pub create: bool,
    pub delete: bool,
    pub moved_from: bool,
    pub moved_to: bool,
}

/// A change to apply to the index for the event's name.
#[derive(Clone, Copy, Debug, PartialEq, Eq, Structural)]
pub enum EventStep {
    Create,
    Remove,
}

/// A message for the event loop.
#[derive(Clone, Copy, Debug, PartialEq, Eq, Structural)]
pub enum ControlMsg {
    FullIndex,
    Quit,
    Reload,
}

/// The steps an event asks for, in order: create, delete, moved-from,
/// moved-to, each when its flag is set.
pub open spec fn steps_of(f: EventFlags) -> Seq<EventStep> {
    (if f.create { seq![EventStep::Create] } else { Seq::empty() })
        + (if f.delete { seq![EventStep::Remove] } else { Seq::empty() })
        + (if f.moved_from { seq![EventStep::Remove] } else { Seq::empty() })
        + (if f.moved_to { seq![EventStep::Create] } else { Seq::empty() })
}

/// The steps an event asks for: creation-like flags add the name,
/// removal-like flags remove it.
pub fn event_steps(f: EventFlags) -> (r: Vec<EventStep>)
    ensures
        r@ == steps_of(f),
{
    let mut r: Vec<EventStep> = Vec::new();
    if f.create {
        r.push(EventStep::Create);
    }
    if f.delete {
        r.push(EventStep::Remove);
    }
    if f.moved_from {
        r.push(EventStep::Remove);
    }
    if f.moved_to {
        r.push(EventStep::Create);
    }
    assert(r@ =~= steps_of(f));
    r
}

/// How a command is answered.
pub struct Reply {
    /// A message to post to the event loop first.
    pub post: Option<ControlMsg>,
    pub response: IpcResponse,
    /// Whether to stop accepting connections afterwards.
    pub stop: bool,
}

/// Answers a client command: control commands are posted to the event loop
/// and acknowledged; index requests are answered from the index. A query
/// with more parameters than the scorer takes matches nothing.
pub fn respond(index: &Index, cmd: IpcCommand) -> (r: Reply)
    ensures
        match cmd {
            IpcCommand::FullIndex => r.post == Some(ControlMsg::FullIndex) && r.response is Success && !r.stop,
            IpcCommand::Quit => r.post == Some(ControlMsg::Quit) && r.response is Success && r.stop,
            IpcCommand::Reload => r.post == Some(ControlMsg::Reload) && r.response is Success && !r.stop,
            IpcCommand::GetIndex(path) => {
                let pv = match path {
                    Some(p) => Some(p@),
                    None => None,
                };
                &&& r.post is None
                &&& !r.stop
                &&& match r.response {
                    IpcResponse::Index(v) => index_answer(index.inner@, pv, Some(v)),
                    IpcResponse::NotFound => index_answer(index.inner@, pv, None),
                    IpcResponse::Success => false,
                }
            },
            IpcCommand::QueryIndex(opts) => r.post is None && !r.stop && match r.response {
                IpcResponse::Index(v) => if opts.query.params().len() <= MAX_PARAMETERS {
                    query_answer(*index, opts, v@)
                } else {
                    v@.len() == 0
                },
                _ => false,
            },
        },
{
    match cmd {
        IpcCommand::FullIndex => Reply { post: Some(ControlMsg::FullIndex), response: IpcResponse::Success, stop: false },
        IpcCommand::Quit => Reply { post: Some(ControlMsg::Quit), response: IpcResponse::Success, stop: true },
        IpcCommand::Reload => Reply { post: Some(ControlMsg::Reload), response: IpcResponse::Success, stop: false },
        IpcCommand::GetIndex(path) => {
            let found = match &path {
                Some(p) => index.get_index(Some(p.as_str())),
                None => index.get_index(None),
            };
            let response = match found {
                Some(v) => IpcResponse::Index(v),
                None => IpcResponse::NotFound,
            };
            Reply { post: None, response, stop: false }
        },
        IpcCommand::QueryIndex(opts) => {
            let found: Vec<IndexEntry> = if opts.query.parameters().len() <= MAX_PARAMETERS {
                query(index, &opts)
            } else {
                Vec::new()
            };
            Reply { post: None, response: IpcResponse::Index(found), stop: false }
        },
    }
}

} // verus!
