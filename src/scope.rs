//! Bindings and the scope stack: names bound to resources, shadowing, and
//! the finalisation of a scope's bindings when it exits.
use vstd::prelude::*;
use crate::resource::{ResourceState, ResourceTable};

verus! {

/// A name bound to one resource, in the scope of depth `depth`.
pub struct Binding {
    pub name: String,
    pub resource: usize,
    pub mutable: bool,
    pub depth: usize,
}

/// Index of the binding that `name` resolves to: the latest one, which
/// shadows any earlier binding of the same name.
pub open spec fn latest_binding(bs: Seq<Binding>, name: Seq<char>) -> Option<int>
    decreases bs.len(),
{
    if bs.len() == 0 {
        None
    } else if bs.last().name@ == name {
        Some(bs.len() - 1)
    } else {
        latest_binding(bs.drop_last(), name)
    }
}

pub proof fn lemma_latest_binding_found(bs: Seq<Binding>, name: Seq<char>)
    ensures
        match latest_binding(bs, name) {
            Some(i) => 0 <= i < bs.len() && bs[i].name@ == name && forall|k: int|
                i < k < bs.len() ==> #[trigger] bs[k].name@ != name,
            None => forall|k: int| 0 <= k < bs.len() ==> #[trigger] bs[k].name@ != name,
        },
    decreases bs.len(),
{
    if bs.len() > 0 && bs.last().name@ != name {
        lemma_latest_binding_found(bs.drop_last(), name);
        assert forall|k: int| 0 <= k < bs.len() - 1 implies bs[k] == bs.drop_last()[k] by {}
    }
}

/// The resources that finalising the bindings `bs` drops, in the order
/// they are dropped: last binding first, and only those whose resource is
/// still live.
pub open spec fn drop_order(bs: Seq<Binding>, states: Seq<ResourceState>) -> Seq<usize>
    decreases bs.len(),
{
    if bs.len() == 0 {
        Seq::empty()
    } else {
        let rest = drop_order(bs.drop_first(), states);
        if states[bs[0].resource as int] == ResourceState::Live {
            rest.push(bs[0].resource)
        } else {
            rest
        }
    }
}

/// `states` with every resource of `ids` dropped.
pub open spec fn with_dropped(states: Seq<ResourceState>, ids: Seq<usize>) -> Seq<ResourceState> {
    Seq::new(
        states.len(),
        |k: int|
            if ids.contains(k as usize) {
                ResourceState::Dropped
            } else {
                states[k]
            },
    )
}

/// A resource in `drop_order(bs, ..)` belongs to a binding of `bs` whose
/// resource is live, and each such binding's resource is in it.
pub proof fn lemma_drop_order_members(bs: Seq<Binding>, states: Seq<ResourceState>, id: usize)
    ensures
        drop_order(bs, states).contains(id) <==> exists|k: int|
            0 <= k < bs.len() && (#[trigger] bs[k]).resource == id && states[id as int]
                == ResourceState::Live,
    decreases bs.len(),
{
    if bs.len() > 0 {
        let rest = bs.drop_first();
        lemma_drop_order_members(rest, states, id);
        assert forall|k: int| 0 < k < bs.len() implies bs[k] == rest[k - 1] by {}
        assert forall|k: int| 0 <= k < rest.len() implies rest[k] == bs[k + 1] by {}
        let d = drop_order(rest, states);
        if states[bs[0].resource as int] == ResourceState::Live {
            assert(d.push(bs[0].resource).contains(id) <==> (d.contains(id) || bs[0].resource
                == id)) by {
                if d.push(bs[0].resource).contains(id) {
                    let j = choose|j: int|
                        0 <= j < d.len() + 1 && d.push(bs[0].resource)[j] == id;
                    if j < d.len() {
                        assert(d[j] == id);
                    }
                }
                if d.contains(id) {
                    let j = choose|j: int| 0 <= j < d.len() && d[j] == id;
                    assert(d.push(bs[0].resource)[j] == id);
                }
                if bs[0].resource == id {
                    assert(d.push(bs[0].resource)[d.len() as int] == id);
                }
            }
        }
    }
}

/// Why a name could not be read, moved or cloned.
#[derive(Clone, Copy, Debug, PartialEq, Eq, Structural)]
pub enum AccessError {
    /// No visible binding has the name.
    Unknown,
    /// The name's resource, and its state, which is not live.
    NotLive(usize, ResourceState),
}

/// The bindings of all open scopes, in creation order, and the scope
/// stack: `frames[k]` is the index of the first binding of the scope of
/// depth `k + 1`. The root scope, of depth 0, starts at index 0 and is
/// never popped.
pub struct Tracker {
    pub table: ResourceTable,
    pub bindings: Vec<Binding>,
    pub frames: Vec<usize>,
}

impl Tracker {
    /// Each binding owns a resource of the table of its own, the frames
    /// are in order.
    pub open spec fn wf(&self) -> bool {
        &&& forall|i: int|
            0 <= i < self.bindings@.len() ==> (#[trigger] self.bindings@[i]).resource
                < self.table@.len()
        &&& forall|i: int, j: int|
            0 <= i < self.bindings@.len() && 0 <= j < self.bindings@.len() && i != j
                ==> (#[trigger] self.bindings@[i]).resource != (#[trigger] self.bindings@[j]).resource
        &&& forall|k: int|
            0 <= k < self.frames@.len() ==> #[trigger] self.frames@[k] <= self.bindings@.len()
        &&& forall|k: int, l: int|
            0 <= k <= l < self.frames@.len() ==> #[trigger] self.frames@[k] <= #[trigger] self.frames@[l]
        &&& self.frames@.len() < usize::MAX
        &&& self.table@.len() <= usize::MAX
    }

    /// Index in `bindings` where the innermost open scope starts.
    pub open spec fn top_start(&self) -> int {
        if self.frames@.len() == 0 {
            0
        } else {
            self.frames@.last() as int
        }
    }

    /// The resource that `name` resolves to.
    pub open spec fn resolve(&self, name: Seq<char>) -> Option<usize> {
        match latest_binding(self.bindings@, name) {
            Some(i) => Some(self.bindings@[i].resource),
            None => None,
        }
    }

    /// The resource that reading `name` gives, or why it cannot be read.
    pub open spec fn access(&self, name: Seq<char>) -> Result<usize, AccessError> {
        match latest_binding(self.bindings@, name) {
            None => Err(AccessError::Unknown),
            Some(i) => {
                let r = self.bindings@[i].resource;
                if self.table@[r as int] == ResourceState::Live {
                    Ok(r)
                } else {
                    Err(AccessError::NotLive(r, self.table@[r as int]))
                }
            },
        }
    }

    /// A tracker with only the root scope and nothing bound.
    pub fn new() -> (t: Tracker)
        ensures
            t.wf(),
            t.table@ == Seq::<ResourceState>::empty(),
            t.bindings@ == Seq::<Binding>::empty(),
            t.frames@ == Seq::<usize>::empty(),
    {
        Tracker { table: ResourceTable::new(), bindings: Vec::new(), frames: Vec::new() }
    }

    /// Depth of the innermost open scope; the root has depth 0.
    pub fn depth(&self) -> (d: usize)
        ensures
            d == self.frames@.len(),
    {
        self.frames.len()
    }

    /// Opens a scope nested in the current one.
    pub fn enter_scope(&mut self)
        requires
            old(self).wf(),
            old(self).frames@.len() + 1 < usize::MAX,
        ensures
            final(self).wf(),
            final(self).table@ == old(self).table@,
            final(self).bindings@ == old(self).bindings@,
            final(self).frames@ == old(self).frames@.push(old(self).bindings@.len() as usize),
    {
        let n: usize = self.bindings.len();
        self.frames.push(n);
    }

    /// Binds `name` in the current scope to a new resource in state
    /// `state`, shadowing any earlier binding of the name, and returns the
    /// resource.
    pub fn bind(&mut self, name: String, mutable: bool, state: ResourceState) -> (id: usize)
        requires
            old(self).wf(),
            old(self).table@.len() < usize::MAX,
        ensures
            final(self).wf(),
            id == old(self).table@.len(),
            final(self).table@ == old(self).table@.push(state),
            final(self).bindings@ == old(self).bindings@.push(
                Binding { name, resource: id, mutable, depth: old(self).frames@.len() as usize },
            ),
            final(self).frames@ == old(self).frames@,
    {
        let id: usize = self.table.allocate();
        if state != ResourceState::Live {
            self.table.states.set(id, state);
        }
        let depth: usize = self.frames.len();
        self.bindings.push(Binding { name, resource: id, mutable, depth });
        proof {
            assert(self.table@ =~= old(self).table@.push(state));
        }
        id
    }

    /// Index of the binding that `name` resolves to.
    pub fn lookup(&self, name: &String) -> (res: Option<usize>)
        ensures
            match res {
                Some(j) => latest_binding(self.bindings@, name@) == Some(j as int),
                None => latest_binding(self.bindings@, name@) is None,
            },
            res is Some ==> res.unwrap() < self.bindings@.len(),
    {
        proof {
            lemma_latest_binding_found(self.bindings@, name@);
        }
        let mut i: usize = self.bindings.len();
        assert(self.bindings@.subrange(0, i as int) =~= self.bindings@);
        while i > 0
            invariant
                i <= self.bindings@.len(),
                latest_binding(self.bindings@, name@) == latest_binding(
                    self.bindings@.subrange(0, i as int),
                    name@,
                ),
            decreases i,
        {
            if self.bindings[i - 1].name == *name {
                return Some(i - 1);
            }
            assert(self.bindings@.subrange(0, i as int).drop_last() =~= self.bindings@.subrange(
                0,
                i - 1,
            ));
            i -= 1;
        }
        None
    }

    /// Closes the innermost scope: its bindings are finalised, last one
    /// first, and the resources of those whose resource is still live are
    /// dropped and returned in that order. The root scope is never closed:
    /// with no scope open beside it nothing changes.
    pub fn exit_scope(&mut self) -> (dropped: Vec<usize>)
        requires
            old(self).wf(),
        ensures
            final(self).wf(),
            old(self).frames@.len() == 0 ==> dropped@ == Seq::<usize>::empty() && final(self).table@
                == old(self).table@ && final(self).bindings@ == old(self).bindings@
                && final(self).frames@ == old(self).frames@,
            old(self).frames@.len() > 0 ==> {
                let start = old(self).frames@.last() as int;
                let closing = old(self).bindings@.subrange(start, old(self).bindings@.len() as int);
                &&& dropped@ == drop_order(closing, old(self).table@)
                &&& final(self).table@ == with_dropped(old(self).table@, dropped@)
                &&& final(self).bindings@ == old(self).bindings@.subrange(0, start)
                &&& final(self).frames@ == old(self).frames@.drop_last()
            },
    {
        if self.frames.len() == 0 {
            return Vec::new();
        }
        let start: usize = self.frames.pop().unwrap();
        let ghost len0 = old(self).bindings@.len() as int;
        let ghost bs0 = old(self).bindings@;
        let ghost st0 = old(self).table@;
        let mut dropped: Vec<usize> = Vec::new();
        proof {
            assert(bs0.subrange(0, len0) =~= bs0);
            assert(with_dropped(st0, dropped@) =~= st0);
            assert(bs0.subrange(len0, len0) =~= Seq::<Binding>::empty());
        }
        while self.bindings.len() > start
            invariant
                start <= self.bindings@.len() <= len0,
                len0 == bs0.len(),
                st0 == old(self).table@,
                bs0 == old(self).bindings@,
                old(self).wf(),
                start == old(self).frames@.last(),
                old(self).frames@.len() > 0,
                self.frames@ == old(self).frames@.drop_last(),
                self.bindings@ == bs0.subrange(0, self.bindings@.len() as int),
                dropped@ == drop_order(bs0.subrange(self.bindings@.len() as int, len0), st0),
                self.table@ == with_dropped(st0, dropped@),
                st0.len() <= usize::MAX,
            decreases self.bindings@.len(),
        {
            let ghost n = self.bindings@.len() as int;
            let b = self.bindings.pop().unwrap();
            proof {
                assert(b == bs0[n - 1]);
                let tail = bs0.subrange(n - 1, len0);
                assert(tail.drop_first() =~= bs0.subrange(n, len0));
                assert(tail[0] == b);
                lemma_drop_order_members(bs0.subrange(n, len0), st0, b.resource);
                assert forall|k: int| 0 <= k < bs0.subrange(n, len0).len() implies (#[trigger] bs0.subrange(n, len0)[k]).resource != b.resource by {
                    assert(bs0.subrange(n, len0)[k] == bs0[n + k]);
                }
                assert(!dropped@.contains(b.resource));
                assert(self.bindings@ =~= bs0.subrange(0, n - 1));
            }
            if self.table.is_live(b.resource) {
                let _ = self.table.mark_dropped(b.resource);
                let ghost d0 = dropped@;
                dropped.push(b.resource);
                proof {
                    assert forall|k: usize| #[trigger] dropped@.contains(k) <==> (d0.contains(k) || k
                        == b.resource) by {
                        if dropped@.contains(k) {
                            let j = choose|j: int| 0 <= j < dropped@.len() && dropped@[j] == k;
                            if j < d0.len() {
                                assert(d0[j] == k);
                            }
                        }
                        if d0.contains(k) {
                            let j = choose|j: int| 0 <= j < d0.len() && d0[j] == k;
                            assert(dropped@[j] == k);
                        }
                        if k == b.resource {
                            assert(dropped@[d0.len() as int] == k);
                        }
                    }
                    assert forall|k: int| 0 <= k < st0.len() implies #[trigger] self.table@[k]
                        == with_dropped(st0, dropped@)[k] by {
                        assert(dropped@.contains(k as usize) <==> (d0.contains(k as usize) || k as usize
                            == b.resource));
                    }
                    assert(self.table@ =~= with_dropped(st0, dropped@));
                }
            }
        }
        proof {
            assert(self.bindings@.len() == start);
        }
        dropped
    }

    /// The resource that `name` resolves to, if it is live.
    pub fn read(&self, name: &String) -> (res: Result<usize, AccessError>)
        requires
            self.wf(),
        ensures
            res == self.access(name@),
    {
        proof {
            lemma_latest_binding_found(self.bindings@, name@);
        }
        match self.lookup(name) {
            None => Err(AccessError::Unknown),
            Some(i) => {
                let r: usize = self.bindings[i].resource;
                let s = self.table.state(r);
                if s == ResourceState::Live {
                    Ok(r)
                } else {
                    Err(AccessError::NotLive(r, s))
                }
            },
        }
    }

    /// Moves the resource of `name` out: a live resource becomes moved and
    /// is returned; the name stays bound, but can no longer be used.
    pub fn move_out(&mut self, name: &String) -> (res: Result<usize, AccessError>)
        requires
            old(self).wf(),
        ensures
            final(self).wf(),
            res == old(self).access(name@),
            final(self).bindings@ == old(self).bindings@,
            final(self).frames@ == old(self).frames@,
            match res {
                Ok(r) => final(self).table@ == old(self).table@.update(r as int, ResourceState::Moved),
                Err(_) => final(self).table@ == old(self).table@,
            },
    {
        proof {
            lemma_latest_binding_found(self.bindings@, name@);
        }
        let res = self.read(name);
        if let Ok(r) = res {
            let _ = self.table.mark_moved(r);
        }
        res
    }

    /// Binds `to` to a new live resource, independent of the resource of
    /// `from`, which must be live; returns the new resource. When `from`
    /// cannot be read nothing changes.
    pub fn clone_binding(&mut self, from: &String, to: String) -> (res: Result<usize, AccessError>)
        requires
            old(self).wf(),
            old(self).table@.len() < usize::MAX,
        ensures
            final(self).wf(),
            final(self).frames@ == old(self).frames@,
            match old(self).access(from@) {
                Ok(_) => {
                    &&& res == Ok::<usize, AccessError>(old(self).table@.len() as usize)
                    &&& final(self).table@ == old(self).table@.push(ResourceState::Live)
                    &&& final(self).bindings@ == old(self).bindings@.push(
                        Binding {
                            name: to,
                            resource: old(self).table@.len() as usize,
                            mutable: false,
                            depth: old(self).frames@.len() as usize,
                        },
                    )
                },
                Err(e) => {
                    &&& res == Err::<usize, AccessError>(e)
                    &&& final(self).table@ == old(self).table@
                    &&& final(self).bindings@ == old(self).bindings@
                },
            },
    {
        match self.read(from) {
            Ok(_) => Ok(self.bind(to, false, ResourceState::Live)),
            Err(e) => Err(e),
        }
    }
}

} // verus!
