//! The resource table: the liveness state of every tracked resource.
use vstd::prelude::*;

verus! {

/// Liveness of one resource.
#[derive(Clone, Copy, Debug, PartialEq, Eq, Structural)]
pub enum ResourceState {
    Live,
    Moved,
    Dropped,
    Invalid,
}

/// The state a resource takes when it is moved out of its binding: only a
/// live resource can be moved.
pub open spec fn moved_state(s: ResourceState) -> Option<ResourceState> {
    if s == ResourceState::Live {
        Some(ResourceState::Moved)
    } else {
        None
    }
}

/// The state a resource takes when its owner finalises it: a live or a
/// moved resource is dropped; a dropped or invalid one cannot be dropped.
pub open spec fn dropped_state(s: ResourceState) -> Option<ResourceState> {
    if s == ResourceState::Live || s == ResourceState::Moved {
        Some(ResourceState::Dropped)
    } else {
        None
    }
}

/// Resources are numbered by their position in the table; a resource is
/// never removed, so an identifier stays valid for the whole pass.
pub struct ResourceTable {
    pub states: Vec<ResourceState>,
}

impl View for ResourceTable {
    type V = Seq<ResourceState>;

    open spec fn view(&self) -> Seq<ResourceState> {
        self.states@
    }
}

impl ResourceTable {
    /// An empty table.
    pub fn new() -> (t: ResourceTable)
        ensures
            t@ == Seq::<ResourceState>::empty(),
    {
        ResourceTable { states: Vec::new() }
    }

    /// Number of resources allocated so far.
    pub fn len(&self) -> (n: usize)
        ensures
            n == self@.len(),
    {
        self.states.len()
    }

    /// Creates a new live resource and returns its identifier.
    pub fn allocate(&mut self) -> (id: usize)
        requires
            old(self)@.len() < usize::MAX,
        ensures
            id == old(self)@.len(),
            final(self)@ == old(self)@.push(ResourceState::Live),
    {
        let id: usize = self.states.len();
        self.states.push(ResourceState::Live);
        id
    }

    /// The state of resource `id`.
    pub fn state(&self, id: usize) -> (s: ResourceState)
        requires
            id < self@.len(),
        ensures
            s == self@[id as int],
    {
        self.states[id]
    }

    /// Whether resource `id` can still be read, moved or borrowed.
    pub fn is_live(&self, id: usize) -> (b: bool)
        requires
            id < self@.len(),
        ensures
            b == (self@[id as int] == ResourceState::Live),
    {
        self.states[id] == ResourceState::Live
    }

    /// Live to Moved. Any other state is left as it is and returned as the
    /// error.
    pub fn mark_moved(&mut self, id: usize) -> (r: Result<(), ResourceState>)
        requires
            id < old(self)@.len(),
        ensures
            match moved_state(old(self)@[id as int]) {
                Some(n) => r is Ok && final(self)@ == old(self)@.update(id as int, n),
                None => r == Err::<(), ResourceState>(old(self)@[id as int]) && final(self)@
                    == old(self)@,
            },
    {
        let s = self.states[id];
        if s == ResourceState::Live {
            self.states.set(id, ResourceState::Moved);
            Ok(())
        } else {
            Err(s)
        }
    }

    /// Live or Moved to Dropped. A dropped resource (a double drop) or an
    /// invalid one is left as it is and its state returned as the error.
    pub fn mark_dropped(&mut self, id: usize) -> (r: Result<(), ResourceState>)
        requires
            id < old(self)@.len(),
        ensures
            match dropped_state(old(self)@[id as int]) {
                Some(n) => r is Ok && final(self)@ == old(self)@.update(id as int, n),
                None => r == Err::<(), ResourceState>(old(self)@[id as int]) && final(self)@
                    == old(self)@,
            },
    {
        let s = self.states[id];
        if s == ResourceState::Live || s == ResourceState::Moved {
            self.states.set(id, ResourceState::Dropped);
            Ok(())
        } else {
            Err(s)
        }
    }

    /// Puts resource `id` in the invalid state, after a violation on it.
    pub fn invalidate(&mut self, id: usize)
        requires
            id < old(self)@.len(),
        ensures
            final(self)@ == old(self)@.update(id as int, ResourceState::Invalid),
    {
        self.states.set(id, ResourceState::Invalid);
    }
}

} // verus!
