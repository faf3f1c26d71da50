//! Properties of the ownership discipline that hold of every trace.
use vstd::prelude::*;
use crate::borrow::{
    active_on, borrowed, borrowed_exclusively, ended, end_from, exclusive_alone, exclusive_outcome,
    latest_borrow, lemma_latest_borrow_found, shared_outcome, Borrow, BorrowKind,
};
use crate::driver::{
    exit_next, halted, initial, model_wf, next, resolve, run, subject, Action, Model, Operation,
};
use crate::resource::ResourceState;
use crate::scope::{drop_order, latest_binding, lemma_drop_order_members, lemma_latest_binding_found, Binding};

verus! {

proof fn lemma_push_shared(bs: Seq<Borrow>, b: Borrow)
    requires
        exclusive_alone(bs),
        b.kind == BorrowKind::Shared,
        !borrowed_exclusively(bs, b.resource),
    ensures
        exclusive_alone(bs.push(b)),
{
    let nb = bs.push(b);
    assert forall|i: int, j: int|
        0 <= i < nb.len() && 0 <= j < nb.len() && i != j && #[trigger] nb[i].active
            && #[trigger] nb[j].active && nb[i].resource == nb[j].resource implies nb[i].kind
        == BorrowKind::Shared && nb[j].kind == BorrowKind::Shared by {
        if i == bs.len() {
            assert(active_on(bs[j], b.resource));
        } else if j == bs.len() {
            assert(active_on(bs[i], b.resource));
        } else {
            assert(nb[i] == bs[i] && nb[j] == bs[j]);
        }
    }
}

proof fn lemma_push_exclusive(bs: Seq<Borrow>, b: Borrow)
    requires
        exclusive_alone(bs),
        !borrowed(bs, b.resource),
    ensures
        exclusive_alone(bs.push(b)),
{
    let nb = bs.push(b);
    assert forall|i: int, j: int|
        0 <= i < nb.len() && 0 <= j < nb.len() && i != j && #[trigger] nb[i].active
            && #[trigger] nb[j].active && nb[i].resource == nb[j].resource implies nb[i].kind
        == BorrowKind::Shared && nb[j].kind == BorrowKind::Shared by {
        if i == bs.len() {
            assert(active_on(bs[j], b.resource));
        } else if j == bs.len() {
            assert(active_on(bs[i], b.resource));
        } else {
            assert(nb[i] == bs[i] && nb[j] == bs[j]);
        }
    }
}

proof fn lemma_end_one(bs: Seq<Borrow>, k: int)
    requires
        exclusive_alone(bs),
        0 <= k < bs.len(),
    ensures
        exclusive_alone(bs.update(k, ended(bs[k]))),
{
    let nb = bs.update(k, ended(bs[k]));
    assert forall|i: int, j: int|
        0 <= i < nb.len() && 0 <= j < nb.len() && i != j && #[trigger] nb[i].active
            && #[trigger] nb[j].active && nb[i].resource == nb[j].resource implies nb[i].kind
        == BorrowKind::Shared && nb[j].kind == BorrowKind::Shared by {
        assert(nb[i] == bs[i] && nb[j] == bs[j]);
    }
}

proof fn lemma_end_from(bs: Seq<Borrow>, d: usize)
    requires
        exclusive_alone(bs),
    ensures
        exclusive_alone(end_from(bs, d)),
{
    let nb = end_from(bs, d);
    assert forall|i: int, j: int|
        0 <= i < nb.len() && 0 <= j < nb.len() && i != j && #[trigger] nb[i].active
            && #[trigger] nb[j].active && nb[i].resource == nb[j].resource implies nb[i].kind
        == BorrowKind::Shared && nb[j].kind == BorrowKind::Shared by {
        assert(bs[i].active && bs[j].active);
    }
}

/// One operation never leaves an exclusive borrow active beside another
/// active borrow of the same resource.
pub proof fn lemma_step_keeps_exclusive_alone(m: Model, op: Operation)
    requires
        exclusive_alone(m.borrows),
    ensures
        exclusive_alone(next(m, op).borrows),
{
    if !halted(m) {
        match op.action {
            Action::BorrowShared { name, borrow } => {
                lemma_latest_binding_found(m.bindings, name@);
                if let Some(i) = latest_binding(m.bindings, name@) {
                    let r = m.bindings[i].resource;
                    let d = m.frames.len() as usize;
                    if shared_outcome(m.borrows, r, d, m.bindings[i].depth) is Ok {
                        lemma_push_shared(
                            m.borrows,
                            Borrow {
                                name: borrow,
                                resource: r,
                                kind: BorrowKind::Shared,
                                depth: d,
                                active: true,
                            },
                        );
                    }
                }
            },
            Action::BorrowExclusive { name, borrow } => {
                lemma_latest_binding_found(m.bindings, name@);
                if let Some(i) = latest_binding(m.bindings, name@) {
                    let r = m.bindings[i].resource;
                    let d = m.frames.len() as usize;
                    if exclusive_outcome(m.borrows, r, d, m.bindings[i].depth) is Ok {
                        lemma_push_exclusive(
                            m.borrows,
                            Borrow {
                                name: borrow,
                                resource: r,
                                kind: BorrowKind::Exclusive,
                                depth: d,
                                active: true,
                            },
                        );
                    }
                }
            },
            Action::EndBorrow { borrow } => {
                lemma_latest_borrow_found(m.borrows, borrow@);
                if let Some(k) = latest_borrow(m.borrows, borrow@) {
                    lemma_end_one(m.borrows, k);
                }
            },
            Action::ExitScope => {
                lemma_end_from(m.borrows, m.frames.len() as usize);
            },
            _ => {},
        }
    }
}

/// At every point of every trace, no resource has an active exclusive
/// borrow together with any other active borrow: never an exclusive and a
/// shared one at once, and never two exclusive ones.
pub proof fn lemma_exclusive_never_beside_shared(fail_fast: bool, ops: Seq<Operation>)
    ensures
        exclusive_alone(run(initial(fail_fast), ops).borrows),
    decreases ops.len(),
{
    if ops.len() > 0 {
        lemma_exclusive_never_beside_shared(fail_fast, ops.drop_last());
        lemma_step_keeps_exclusive_alone(run(initial(fail_fast), ops.drop_last()), ops.last());
    }
}

/// An operation that reads, borrows, moves or clones a binding whose
/// resource has been moved or dropped is reported, and does not succeed:
/// it adds exactly one diagnostic, about that resource, creates no borrow,
/// and leaves the resource invalid.
pub proof fn lemma_no_silent_use_after_move_or_drop(m: Model, op: Operation, name: String)
    requires
        model_wf(m),
        !halted(m),
        subject(op.action) == Some(name),
        resolve(m, name@) is Some,
        m.states[resolve(m, name@).unwrap() as int] == ResourceState::Moved || m.states[resolve(
            m,
            name@,
        ).unwrap() as int] == ResourceState::Dropped,
    ensures
        next(m, op).diagnostics.len() == m.diagnostics.len() + 1,
        next(m, op).diagnostics.last().resource == resolve(m, name@),
        next(m, op).states[resolve(m, name@).unwrap() as int] == ResourceState::Invalid,
        next(m, op).borrows == m.borrows,
{
    lemma_latest_binding_found(m.bindings, name@);
}

/// Resource `a` belongs to a binding of `bs` created after one that owns
/// resource `b`.
pub open spec fn owned_later(bs: Seq<Binding>, a: usize, b: usize) -> bool {
    exists|ka: int, kb: int|
        0 <= kb < ka < bs.len() && (#[trigger] bs[ka]).resource == a && (#[trigger] bs[kb]).resource
            == b
}

/// The resources that `drop_order` lists come last-created first.
proof fn lemma_drop_order_reversed(bs: Seq<Binding>, states: Seq<ResourceState>)
    ensures
        forall|p: int, q: int|
            0 <= p < q < drop_order(bs, states).len() ==> owned_later(
                bs,
                #[trigger] drop_order(bs, states)[p],
                #[trigger] drop_order(bs, states)[q],
            ),
    decreases bs.len(),
{
    if bs.len() > 0 {
        let rest = bs.drop_first();
        lemma_drop_order_reversed(rest, states);
        let d = drop_order(rest, states);
        let dd = drop_order(bs, states);
        let live = states[bs[0].resource as int] == ResourceState::Live;
        if live {
            assert(dd == d.push(bs[0].resource));
        } else {
            assert(dd == d);
        }
        assert forall|p: int, q: int| 0 <= p < q < dd.len() implies owned_later(
            bs,
            #[trigger] dd[p],
            #[trigger] dd[q],
        ) by {
            if q < d.len() {
                assert(d[p] == dd[p] && d[q] == dd[q]);
                assert(owned_later(rest, d[p], d[q]));
                let (kp, kq) = choose|kp: int, kq: int|
                    0 <= kq < kp < rest.len() && (#[trigger] rest[kp]).resource == d[p]
                        && (#[trigger] rest[kq]).resource == d[q];
                assert(bs[kp + 1] == rest[kp] && bs[kq + 1] == rest[kq]);
                assert(0 <= kq + 1 < kp + 1 < bs.len() && bs[kp + 1].resource == dd[p] && bs[kq
                    + 1].resource == dd[q]);
            } else {
                assert(dd[p] == d[p]);
                lemma_drop_order_members(rest, states, d[p]);
                assert(d.contains(d[p]));
                let k = choose|k: int|
                    0 <= k < rest.len() && (#[trigger] rest[k]).resource == d[p];
                assert(bs[k + 1] == rest[k]);
                assert(dd[q] == bs[0].resource);
                assert(0 <= 0 < k + 1 < bs.len() && bs[k + 1].resource == dd[p] && bs[0].resource
                    == dd[q]);
            }
        }
    }
}

/// Closing a scope drops exactly the resources of the bindings created
/// directly in it that are still live, each once and no other, the
/// last-created first; every other resource keeps its state.
pub proof fn lemma_exit_drops_exactly(m: Model)
    requires
        model_wf(m),
        m.frames.len() > 0,
    ensures
        ({
            let closing = m.bindings.subrange(m.frames.last() as int, m.bindings.len() as int);
            let d = drop_order(closing, m.states);
            &&& forall|id: usize|
                d.contains(id) <==> exists|k: int|
                    0 <= k < closing.len() && (#[trigger] closing[k]).resource == id && m.states[id as int]
                        == ResourceState::Live
            &&& forall|p: int, q: int|
                0 <= p < q < d.len() ==> owned_later(closing, #[trigger] d[p], #[trigger] d[q])
            &&& forall|id: int|
                0 <= id < m.states.len() ==> #[trigger] exit_next(m).states[id] == if d.contains(
                    id as usize,
                ) {
                    ResourceState::Dropped
                } else {
                    m.states[id]
                }
        }),
{
    let closing = m.bindings.subrange(m.frames.last() as int, m.bindings.len() as int);
    assert(m.frames[m.frames.len() - 1] <= m.bindings.len());
    let d = drop_order(closing, m.states);
    lemma_drop_order_reversed(closing, m.states);
    assert forall|id: usize| #[trigger] drop_order(closing, m.states).contains(id) <==> exists|k: int|
        0 <= k < closing.len() && (#[trigger] closing[k]).resource == id && m.states[id as int]
            == ResourceState::Live by {
        lemma_drop_order_members(closing, m.states, id);
    }
}

/// Cloning establishes no aliasing: the copy is a new live resource, and
/// moving either the source or the copy afterwards leaves the state of
/// the other as it was.
pub proof fn lemma_clone_is_independent(m: Model, from: String, to: String, loc: u64, then: Operation, moved: String, dest: String)
    requires
        model_wf(m),
        !halted(m),
        from@ != to@,
        resolve(m, from@) is Some,
        m.states[resolve(m, from@).unwrap() as int] == ResourceState::Live,
        then.action == (Action::Move { from: moved, to: dest }),
        moved@ == from@ || moved@ == to@,
    ensures
        ({
            let m2 = next(m, Operation { action: Action::Clone { from, to }, location: loc });
            let r = resolve(m, from@).unwrap();
            let r2 = m.states.len() as usize;
            &&& resolve(m2, to@) == Some(r2)
            &&& resolve(m2, from@) == Some(r)
            &&& r2 != r
            &&& m2.states[r as int] == m.states[r as int]
            &&& m2.states[r2 as int] == ResourceState::Live
            &&& moved@ == from@ ==> next(m2, then).states[r2 as int] == ResourceState::Live
            &&& moved@ == to@ ==> next(m2, then).states[r as int] == m2.states[r as int]
        }),
{
    lemma_latest_binding_found(m.bindings, from@);
    let m2 = next(m, Operation { action: Action::Clone { from, to }, location: loc });
    let r = resolve(m, from@).unwrap();
    let r2 = m.states.len() as usize;
    let i = latest_binding(m.bindings, from@).unwrap();
    assert(m.bindings[i].resource < m.states.len());
    assert(m2.bindings.drop_last() =~= m.bindings);
    assert(latest_binding(m2.bindings, from@) == latest_binding(m.bindings, from@));
    assert(m2.bindings[m.bindings.len() as int] == m2.bindings.last());
    assert(latest_binding(m2.bindings, to@) == Some(m.bindings.len() as int));
    lemma_latest_binding_found(m2.bindings, moved@);
}

} // verus!
