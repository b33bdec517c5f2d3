//! The supervision of long-running tasks: when a finished task brings the node
//! down.
//!
//! The tasks run outside. What happens to them comes in as events, and the
//! supervisor says whether to shut down, and why.

use vstd::prelude::*;

use crate::assoc::{value_of, with_item, with_value, without_item, without_key, KeyMap, KeySet};

verus! {

/// How long a shutdown may take, in milliseconds, unless another time is set.
pub const DEFAULT_SHUTDOWN_TIMEOUT_MS: u64 = 10_000;

/// What happened to a task, or to the node.
pub enum TaskEvent {
    /// The task came to its end.
    Finished(u64),
    /// The task failed, with its error's text.
    Failed(u64, String),
    /// The task was aborted or panicked.
    Lost(u64, String),
    /// The node was asked to stop.
    CtrlC,
}

/// Why the node shuts down.
pub enum ShutdownReason {
    CtrlC,
    TaskExited(String),
    TaskError(String, String),
    JoinError(String, String),
}

/// The mathematical value of a [`ShutdownReason`].
pub enum ReasonView {
    CtrlC,
    TaskExited(Seq<char>),
    TaskError(Seq<char>, Seq<char>),
    JoinError(Seq<char>, Seq<char>),
}

impl View for ShutdownReason {
    type V = ReasonView;

    open spec fn view(&self) -> ReasonView {
        match self {
            ShutdownReason::CtrlC => ReasonView::CtrlC,
            ShutdownReason::TaskExited(n) => ReasonView::TaskExited(n@),
            ShutdownReason::TaskError(n, e) => ReasonView::TaskError(n@, e@),
            ShutdownReason::JoinError(n, e) => ReasonView::JoinError(n@, e@),
        }
    }
}

/// The supervisor: the tasks' names, and which of them are meant to come to an end.
pub struct Supervisor {
    pub names: KeyMap<u64, String>,
    pub startup: KeySet<u64>,
    pub shutdown_timeout_ms: u64,
}

/// The mathematical value of a [`Supervisor`].
pub struct TasksView {
    pub names: Seq<(u64, Seq<char>)>,
    pub startup: Seq<u64>,
}

impl View for Supervisor {
    type V = TasksView;

    open spec fn view(&self) -> TasksView {
        TasksView { names: self.names@, startup: self.startup@ }
    }
}

impl TasksView {
    /// The task's name; a task without one has the empty name.
    pub open spec fn name(self, id: u64) -> Seq<char> {
        match value_of(self.names, id) {
            Some(n) => n,
            None => Seq::empty(),
        }
    }

    /// The task is no longer known.
    pub open spec fn forget(self, id: u64) -> TasksView {
        TasksView { names: without_key(self.names, id), startup: without_item(self.startup, id) }
    }
}

/// The state after an event.
pub open spec fn after_event(s: TasksView, e: TaskEvent) -> TasksView {
    match e {
        TaskEvent::Finished(id) => s.forget(id),
        TaskEvent::Failed(id, _) => s.forget(id),
        TaskEvent::Lost(id, _) => s.forget(id),
        TaskEvent::CtrlC => s,
    }
}

/// Whether an event brings the node down. The end of a startup task does not; any
/// other end of a task does.
pub open spec fn reason_for(s: TasksView, e: TaskEvent) -> Option<ReasonView> {
    match e {
        TaskEvent::Finished(id) => if s.startup.contains(id) {
            None
        } else {
            Some(ReasonView::TaskExited(s.name(id)))
        },
        TaskEvent::Failed(id, err) => Some(ReasonView::TaskError(s.name(id), err@)),
        TaskEvent::Lost(id, err) => Some(ReasonView::JoinError(s.name(id), err@)),
        TaskEvent::CtrlC => Some(ReasonView::CtrlC),
    }
}

impl Supervisor {
    /// A supervisor without tasks.
    pub fn new() -> (r: Self)
        ensures
            r@ == (TasksView { names: Seq::empty(), startup: Seq::empty() }),
            r.shutdown_timeout_ms == DEFAULT_SHUTDOWN_TIMEOUT_MS,
    {
        Supervisor {
            names: KeyMap::new(),
            startup: KeySet::new(),
            shutdown_timeout_ms: DEFAULT_SHUTDOWN_TIMEOUT_MS,
        }
    }

    /// Sets how long a shutdown may take.
    pub fn with_shutdown_timeout(self, ms: u64) -> (r: Self)
        ensures
            r@ == self@,
            r.shutdown_timeout_ms == ms,
    {
        let mut r = self;
        r.shutdown_timeout_ms = ms;
        r
    }

    /// Registers a task that is to run until the node stops.
    pub fn spawn(&mut self, id: u64, name: String)
        ensures
            final(self)@ == (TasksView {
                names: with_value(old(self)@.names, id, name@),
                ..old(self)@
            }),
            final(self).shutdown_timeout_ms == old(self).shutdown_timeout_ms,
    {
        self.names.insert(id, name);
    }

    /// Registers a task that is meant to come to an end.
    pub fn spawn_startup_task(&mut self, id: u64, name: String)
        ensures
            final(self)@ == (TasksView {
                names: with_value(old(self)@.names, id, name@),
                startup: with_item(old(self)@.startup, id),
            }),
            final(self).shutdown_timeout_ms == old(self).shutdown_timeout_ms,
    {
        self.names.insert(id, name);
        self.startup.insert(id);
    }

    fn take_name(&mut self, id: u64) -> (r: String)
        ensures
            r@ == old(self)@.name(id),
            final(self)@ == (TasksView {
                names: without_key(old(self)@.names, id),
                ..old(self)@
            }),
            final(self).shutdown_timeout_ms == old(self).shutdown_timeout_ms,
    {
        let name = match self.names.get(&id) {
            Some(n) => n.clone(),
            None => String::new(),
        };
        self.names.remove(&id);
        name
    }

    /// Takes in an event; gives the reason to shut down, if it is one.
    pub fn handle(&mut self, e: TaskEvent) -> (r: Option<ShutdownReason>)
        ensures
            final(self)@ == after_event(old(self)@, e),
            match r {
                Some(x) => reason_for(old(self)@, e) == Some(x@),
                None => reason_for(old(self)@, e) is None,
            },
            final(self).shutdown_timeout_ms == old(self).shutdown_timeout_ms,
    {
        match e {
            TaskEvent::Finished(id) => {
                let name = self.take_name(id);
                if self.startup.remove(&id) {
                    None
                } else {
                    Some(ShutdownReason::TaskExited(name))
                }
            },
            TaskEvent::Failed(id, err) => {
                let name = self.take_name(id);
                self.startup.remove(&id);
                Some(ShutdownReason::TaskError(name, err))
            },
            TaskEvent::Lost(id, err) => {
                let name = self.take_name(id);
                self.startup.remove(&id);
                Some(ShutdownReason::JoinError(name, err))
            },
            TaskEvent::CtrlC => Some(ShutdownReason::CtrlC),
        }
    }

    /// Takes in the end of a task while the node shuts down; gives the task's name
    /// where it was lost, to be reported.
    pub fn drain(&mut self, id: u64, lost: bool) -> (r: Option<String>)
        ensures
            final(self)@ == (TasksView {
                names: without_key(old(self)@.names, id),
                ..old(self)@
            }),
            match r {
                Some(n) => lost && n@ == old(self)@.name(id),
                None => !lost,
            },
            final(self).shutdown_timeout_ms == old(self).shutdown_timeout_ms,
    {
        let name = self.take_name(id);
        if lost {
            Some(name)
        } else {
            None
        }
    }
}

/// The normal end of a startup task never brings the node down, its failure always
/// does, and so does any end of another task.
pub proof fn law_only_startup_tasks_may_end(s: TasksView, id: u64, name: String, err: String)
    ensures
        ({
            let started = TasksView {
                names: with_value(s.names, id, name@),
                startup: with_item(s.startup, id),
            };
            &&& reason_for(started, TaskEvent::Finished(id)) is None
            &&& reason_for(started, TaskEvent::Failed(id, err)) == Some(
                ReasonView::TaskError(name@, err@),
            )
            &&& reason_for(started, TaskEvent::Lost(id, err)) == Some(
                ReasonView::JoinError(name@, err@),
            )
        }),
        !s.startup.contains(id) ==> reason_for(
            TasksView { names: with_value(s.names, id, name@), ..s },
            TaskEvent::Finished(id),
        ) == Some(ReasonView::TaskExited(name@)),
{
    crate::assoc::lemma_with_value(s.names, id, name@, id);
    if !s.startup.contains(id) {
        assert(s.startup.push(id)[s.startup.len() as int] == id);
    }
}

} // verus!
