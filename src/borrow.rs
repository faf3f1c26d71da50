//! The borrow state machine: shared and exclusive borrows of resources.
use vstd::prelude::*;

verus! {

/// Kind of an aliasing relation.
#[derive(Clone, Copy, Debug, PartialEq, Eq, Structural)]
pub enum BorrowKind {
    Shared,
    Exclusive,
}

/// Which rule a refused borrow request broke.
#[derive(Clone, Copy, Debug, PartialEq, Eq, Structural)]
pub enum ConflictKind {
    /// An exclusive borrow was asked while some borrow was active.
    ExclusiveWhileBorrowed,
    /// A shared borrow was asked while an exclusive borrow was active.
    SharedWhileExclusive,
}

/// Why a borrow request was refused.
#[derive(Clone, Copy, Debug, PartialEq, Eq, Structural)]
pub enum BorrowError {
    Conflict(ConflictKind),
    /// The borrow would be created in a scope shallower than the one that
    /// owns the resource, and so would outlive it.
    Dangling,
}

/// Per-resource aliasing state.
#[derive(Clone, Copy, Debug, PartialEq, Eq, Structural)]
pub enum AliasState {
    Unborrowed,
    Shared(usize),
    Exclusive,
}

/// One borrow, named so that it can be ended later.
pub struct Borrow {
    pub name: String,
    pub resource: usize,
    pub kind: BorrowKind,
    /// Scope depth at which the borrow was created.
    pub depth: usize,
    pub active: bool,
}

pub open spec fn active_on(b: Borrow, r: usize) -> bool {
    b.active && b.resource == r
}

/// Some borrow of resource `r` is active.
pub open spec fn borrowed(bs: Seq<Borrow>, r: usize) -> bool {
    exists|i: int| 0 <= i < bs.len() && active_on(#[trigger] bs[i], r)
}

/// An exclusive borrow of resource `r` is active.
pub open spec fn borrowed_exclusively(bs: Seq<Borrow>, r: usize) -> bool {
    exists|i: int| 0 <= i < bs.len() && active_on(#[trigger] bs[i], r) && bs[i].kind
        == BorrowKind::Exclusive
}

/// Number of active borrows of resource `r`.
pub open spec fn active_count(bs: Seq<Borrow>, r: usize) -> nat
    decreases bs.len(),
{
    if bs.len() == 0 {
        0
    } else {
        active_count(bs.drop_last(), r) + if active_on(bs.last(), r) {
            1nat
        } else {
            0nat
        }
    }
}

/// No two active borrows of one resource unless both are shared: at most
/// one exclusive borrow, or any number of shared ones, never both.
pub open spec fn exclusive_alone(bs: Seq<Borrow>) -> bool {
    forall|i: int, j: int|
        0 <= i < bs.len() && 0 <= j < bs.len() && i != j && #[trigger] bs[i].active
            && #[trigger] bs[j].active && bs[i].resource == bs[j].resource ==> bs[i].kind
            == BorrowKind::Shared && bs[j].kind == BorrowKind::Shared
}

/// Index of the latest borrow named `name`.
pub open spec fn latest_borrow(bs: Seq<Borrow>, name: Seq<char>) -> Option<int>
    decreases bs.len(),
{
    if bs.len() == 0 {
        None
    } else if bs.last().name@ == name {
        Some(bs.len() - 1)
    } else {
        latest_borrow(bs.drop_last(), name)
    }
}

pub proof fn lemma_latest_borrow_found(bs: Seq<Borrow>, name: Seq<char>)
    ensures
        match latest_borrow(bs, name) {
            Some(i) => 0 <= i < bs.len() && bs[i].name@ == name,
            None => forall|k: int| 0 <= k < bs.len() ==> #[trigger] bs[k].name@ != name,
        },
    decreases bs.len(),
{
    if bs.len() > 0 && bs.last().name@ != name {
        lemma_latest_borrow_found(bs.drop_last(), name);
        assert forall|k: int| 0 <= k < bs.len() - 1 implies bs[k] == bs.drop_last()[k] by {}
    }
}

/// The outcome of a shared request: dangling first, then conflicts.
pub open spec fn shared_outcome(bs: Seq<Borrow>, r: usize, depth: usize, owner_depth: usize) -> Result<(), BorrowError> {
    if depth < owner_depth {
        Err(BorrowError::Dangling)
    } else if borrowed_exclusively(bs, r) {
        Err(BorrowError::Conflict(ConflictKind::SharedWhileExclusive))
    } else {
        Ok(())
    }
}

/// The outcome of an exclusive request: dangling first, then conflicts.
pub open spec fn exclusive_outcome(bs: Seq<Borrow>, r: usize, depth: usize, owner_depth: usize) -> Result<(), BorrowError> {
    if depth < owner_depth {
        Err(BorrowError::Dangling)
    } else if borrowed(bs, r) {
        Err(BorrowError::Conflict(ConflictKind::ExclusiveWhileBorrowed))
    } else {
        Ok(())
    }
}

/// The borrow `b` with its status set to ended.
pub open spec fn ended(b: Borrow) -> Borrow {
    Borrow { active: false, ..b }
}

/// Every borrow created at `depth` or deeper ends.
pub open spec fn end_from(bs: Seq<Borrow>, depth: usize) -> Seq<Borrow> {
    bs.map_values(|b: Borrow| if b.depth >= depth { ended(b) } else { b })
}

pub struct BorrowTable {
    pub borrows: Vec<Borrow>,
}

impl View for BorrowTable {
    type V = Seq<Borrow>;

    open spec fn view(&self) -> Seq<Borrow> {
        self.borrows@
    }
}

impl BorrowTable {
    pub fn new() -> (t: BorrowTable)
        ensures
            t@ == Seq::<Borrow>::empty(),
    {
        BorrowTable { borrows: Vec::new() }
    }

    /// Whether an active borrow of `r` exists, and whether one is exclusive.
    fn scan(&self, r: usize) -> (res: (bool, bool))
        ensures
            res.0 == borrowed(self@, r),
            res.1 == borrowed_exclusively(self@, r),
    {
        let mut any = false;
        let mut excl = false;
        let mut i: usize = 0;
        while i < self.borrows.len()
            invariant
                i <= self@.len(),
                any == exists|k: int| 0 <= k < i && active_on(#[trigger] self@[k], r),
                excl == exists|k: int|
                    0 <= k < i && active_on(#[trigger] self@[k], r) && self@[k].kind
                        == BorrowKind::Exclusive,
            decreases self@.len() - i,
        {
            let b = &self.borrows[i];
            if b.active && b.resource == r {
                any = true;
                if b.kind == BorrowKind::Exclusive {
                    excl = true;
                }
            }
            i += 1;
        }
        (any, excl)
    }

    /// The aliasing state of resource `r`: exclusive, shared by as many
    /// borrows as are active, or none.
    pub fn alias_state(&self, r: usize) -> (s: AliasState)
        ensures
            borrowed_exclusively(self@, r) ==> s == AliasState::Exclusive,
            !borrowed(self@, r) ==> s == AliasState::Unborrowed,
            borrowed(self@, r) && !borrowed_exclusively(self@, r) ==> s == AliasState::Shared(
                active_count(self@, r) as usize,
            ),
    {
        let (any, excl) = self.scan(r);
        if excl {
            AliasState::Exclusive
        } else if !any {
            AliasState::Unborrowed
        } else {
            let mut n: usize = 0;
            let mut i: usize = 0;
            proof {
                assert(self@.subrange(0, 0) =~= Seq::<Borrow>::empty());
            }
            while i < self.borrows.len()
                invariant
                    i <= self@.len(),
                    n == active_count(self@.subrange(0, i as int), r),
                    n <= i,
                decreases self@.len() - i,
            {
                proof {
                    assert(self@.subrange(0, i + 1).drop_last() =~= self@.subrange(0, i as int));
                }
                if self.borrows[i].active && self.borrows[i].resource == r {
                    n += 1;
                }
                i += 1;
            }
            proof {
                assert(self@.subrange(0, self@.len() as int) =~= self@);
            }
            AliasState::Shared(n)
        }
    }

    /// Asks for a shared borrow of `r` from a scope of depth `depth`; the
    /// resource is owned at depth `owner_depth`.
    pub fn request_shared(&mut self, name: String, r: usize, depth: usize, owner_depth: usize) -> (res: Result<(), BorrowError>)
        ensures
            res == shared_outcome(old(self)@, r, depth, owner_depth),
            res is Ok ==> final(self)@ == old(self)@.push(
                Borrow { name, resource: r, kind: BorrowKind::Shared, depth, active: true },
            ),
            res is Err ==> final(self)@ == old(self)@,
    {
        if depth < owner_depth {
            return Err(BorrowError::Dangling);
        }
        let (_, excl) = self.scan(r);
        if excl {
            return Err(BorrowError::Conflict(ConflictKind::SharedWhileExclusive));
        }
        self.borrows.push(Borrow { name, resource: r, kind: BorrowKind::Shared, depth, active: true });
        Ok(())
    }

    /// Asks for an exclusive borrow of `r` from a scope of depth `depth`;
    /// the resource is owned at depth `owner_depth`.
    pub fn request_exclusive(&mut self, name: String, r: usize, depth: usize, owner_depth: usize) -> (res: Result<(), BorrowError>)
        ensures
            res == exclusive_outcome(old(self)@, r, depth, owner_depth),
            res is Ok ==> final(self)@ == old(self)@.push(
                Borrow { name, resource: r, kind: BorrowKind::Exclusive, depth, active: true },
            ),
            res is Err ==> final(self)@ == old(self)@,
    {
        if depth < owner_depth {
            return Err(BorrowError::Dangling);
        }
        let (any, _) = self.scan(r);
        if any {
            return Err(BorrowError::Conflict(ConflictKind::ExclusiveWhileBorrowed));
        }
        self.borrows.push(Borrow { name, resource: r, kind: BorrowKind::Exclusive, depth, active: true });
        Ok(())
    }

    /// Index of the latest borrow named `name`.
    pub fn find(&self, name: &String) -> (res: Option<usize>)
        ensures
            match res {
                Some(j) => latest_borrow(self@, name@) == Some(j as int),
                None => latest_borrow(self@, name@) is None,
            },
            res is Some ==> res.unwrap() < self@.len(),
    {
        proof {
            lemma_latest_borrow_found(self@, name@);
        }
        let mut i: usize = self.borrows.len();
        assert(self@.subrange(0, i as int) =~= self@);
        while i > 0
            invariant
                i <= self@.len(),
                latest_borrow(self@, name@) == latest_borrow(self@.subrange(0, i as int), name@),
            decreases i,
        {
            if self.borrows[i - 1].name == *name {
                return Some(i - 1);
            }
            assert(self@.subrange(0, i as int).drop_last() =~= self@.subrange(0, i - 1));
            i -= 1;
        }
        None
    }

    /// Ends the latest borrow named `name`. An ended borrow stays ended.
    /// Returns false when no borrow has that name.
    pub fn release(&mut self, name: &String) -> (found: bool)
        ensures
            found == latest_borrow(old(self)@, name@) is Some,
            match latest_borrow(old(self)@, name@) {
                Some(i) => final(self)@ == old(self)@.update(i, ended(old(self)@[i])),
                None => final(self)@ == old(self)@,
            },
    {
        proof {
            lemma_latest_borrow_found(old(self)@, name@);
        }
        match self.find(name) {
            Some(i) => {
                let mut b = self.borrows.remove(i);
                b.active = false;
                self.borrows.insert(i, b);
                assert(self@ =~= old(self)@.update(i as int, ended(old(self)@[i as int])));
                true
            }
            None => false,
        }
    }

    /// Ends every borrow created at `depth` or deeper.
    pub fn end_from_depth(&mut self, depth: usize)
        ensures
            final(self)@ == end_from(old(self)@, depth),
    {
        let mut i: usize = 0;
        while i < self.borrows.len()
            invariant
                i <= self@.len(),
                self@.len() == old(self)@.len(),
                forall|k: int| 0 <= k < i ==> self@[k] == end_from(old(self)@, depth)[k],
                forall|k: int| i <= k < self@.len() ==> self@[k] == old(self)@[k],
            decreases self@.len() - i,
        {
            if self.borrows[i].depth >= depth {
                let mut b = self.borrows.remove(i);
                b.active = false;
                self.borrows.insert(i, b);
            }
            i += 1;
        }
        assert(self@ =~= end_from(old(self)@, depth));
    }
}

} // verus!
