//! The actions the edit loop dispatches, and the queue they wait in.
use std::collections::VecDeque;

use vstd::prelude::*;

use crate::math::Op;
use crate::node::Node;

verus! {

/// A request to scroll or shift the preview pane.
#[derive(Debug, Clone, Copy)]
pub enum PreviewNavigationAction {
    Up(u16),
    Down(u16),
    Left,
    Right,
}

/// A request to move the selection or change what is visible.
#[derive(Debug)]
pub enum NavigationAction {
    Up(usize),
    Down(usize),
    Top,
    Bottom,
    Expand,
    Close,
    TogglePreview,
    PreviewNavigation(PreviewNavigationAction),
    PreviewWindowResize(Op),
}

/// A two-phase exchange with a dialog: first the request that opens it,
/// then the answer it was confirmed with.
#[derive(Debug)]
pub enum ConfirmAction<T, C = bool> {
    Request(T),
    Confirm(C),
}

/// A request handled by the workspace.
#[derive(Debug)]
pub enum WorkSpaceAction {
    Navigation(NavigationAction),
    Edit,
    EditError(ConfirmAction<String>),
    Save(ConfirmAction<()>),
    SaveDone,
    ErrorConfirmed,
    Load { node: Node, is_edit: bool },
    Rename(ConfirmAction<(), Option<String>>),
    Delete(ConfirmAction<()>),
    Add(ConfirmAction<(), Option<String>>),
}

/// What an edit job does next.
#[derive(Debug)]
pub enum EditJobAction {
    Init,
    Open,
}

/// A request for background work.
#[derive(Debug)]
pub enum JobAction {
    Edit(EditJobAction),
    Save,
}

/// Anything the edit loop can be asked to do.
#[must_use]
#[derive(Debug)]
pub enum Action {
    Exit(ConfirmAction<()>),
    Workspace(WorkSpaceAction),
    ExecuteJob(JobAction),
}

/// The queue of pending actions, served oldest first.
pub struct Actions(VecDeque<Action>);

impl Actions {
    pub closed spec fn spec_items(self) -> Seq<Action> {
        self.0@
    }

    /// An empty queue.
    pub fn new() -> (r: Actions)
        ensures
            r.spec_items() == Seq::<Action>::empty(),
    {
        Actions(VecDeque::new())
    }

    /// Appends an action behind everything already queued.
    pub fn push(&mut self, action: Action)
        ensures
            final(self).spec_items() == old(self).spec_items().push(action),
    {
        self.0.push_back(action);
    }

    /// Takes the oldest queued action, if one is waiting.
    pub fn next(&mut self) -> (r: Option<Action>)
        ensures
            old(self).spec_items().len() == 0 ==> r is None && final(self).spec_items()
                == old(self).spec_items(),
            old(self).spec_items().len() > 0 ==> (r matches Some(a) && a == old(
                self,
            ).spec_items()[0] && final(self).spec_items() == old(self).spec_items().drop_first()),
    {
        let r = self.0.pop_front();
        proof {
            if old(self).spec_items().len() > 0 {
                assert(final(self).spec_items() =~= old(self).spec_items().drop_first());
            }
        }
        r
    }

    /// Drains the queue into a list, oldest first.
    pub fn into_vec(self) -> (r: Vec<Action>)
        ensures
            r@ == self.spec_items(),
    {
        let mut q = self;
        let mut out: Vec<Action> = Vec::new();
        loop
            invariant
                out@ + q.spec_items() == self.spec_items(),
            decreases q.spec_items().len(),
        {
            match q.next() {
                Some(a) => {
                    out.push(a);
                    proof {
                        assert(out@ + q.spec_items() =~= self.spec_items());
                    }
                },
                None => {
                    proof {
                        assert(out@ =~= self.spec_items());
                    }
                    return out;
                },
            }
        }
    }
}

} // verus!
