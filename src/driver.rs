//! The verifier driver: consumes a trace of operations in order and
//! accumulates the diagnostics of every violation.
use vstd::prelude::*;
use crate::borrow::{
    ended, end_from, exclusive_outcome, latest_borrow, shared_outcome, Borrow, BorrowError,
    BorrowKind, BorrowTable,
};
use crate::diagnostic::{Diagnostic, DiagnosticKind};
use crate::resource::ResourceState;
use crate::scope::{
    drop_order, latest_binding, lemma_latest_binding_found, with_dropped, AccessError, Binding,
    Tracker,
};

verus! {

/// What an operation does. Names are binding names, except `borrow`,
/// which names a borrow.
pub enum Action {
    /// Binds `name` to a new live resource.
    Bind { name: String, mutable: bool },
    /// Moves the resource of `from` out; `to` is bound to the moved value.
    Move { from: String, to: String },
    /// Binds `to` to an independent copy of the resource of `from`.
    Clone { from: String, to: String },
    BorrowShared { name: String, borrow: String },
    BorrowExclusive { name: String, borrow: String },
    EndBorrow { borrow: String },
    /// Reads the resource of `name`.
    Use { name: String },
    EnterScope,
    ExitScope,
}

/// One record of a trace: an action and an opaque location tag that is
/// only copied into diagnostics.
pub struct Operation {
    pub action: Action,
    pub location: u64,
}

/// Options of a pass.
#[derive(Clone, Copy, Debug, PartialEq, Eq, Structural)]
pub struct Config {
    /// Stop at the first diagnostic instead of collecting all of them.
    pub fail_fast: bool,
}

impl Default for Config {
    /// Collect every diagnostic.
    fn default() -> (c: Config)
        ensures
            !c.fail_fast,
    {
        Config { fail_fast: false }
    }
}

/// The state of a pass, as mathematical values.
pub struct Model {
    pub states: Seq<ResourceState>,
    pub bindings: Seq<Binding>,
    pub frames: Seq<usize>,
    pub borrows: Seq<Borrow>,
    pub diagnostics: Seq<Diagnostic>,
    pub fail_fast: bool,
}

/// The state at the start of a pass: the root scope alone, nothing bound.
pub open spec fn initial(fail_fast: bool) -> Model {
    Model {
        states: Seq::empty(),
        bindings: Seq::empty(),
        frames: Seq::empty(),
        borrows: Seq::empty(),
        diagnostics: Seq::empty(),
        fail_fast,
    }
}

/// Each binding owns a resource of the table of its own, and the scope
/// frames are in order within the bindings.
pub open spec fn model_wf(m: Model) -> bool {
    &&& forall|i: int|
        0 <= i < m.bindings.len() ==> (#[trigger] m.bindings[i]).resource < m.states.len()
    &&& forall|i: int, j: int|
        0 <= i < m.bindings.len() && 0 <= j < m.bindings.len() && i != j
            ==> (#[trigger] m.bindings[i]).resource != (#[trigger] m.bindings[j]).resource
    &&& forall|k: int| 0 <= k < m.frames.len() ==> #[trigger] m.frames[k] <= m.bindings.len()
    &&& m.states.len() <= usize::MAX
}

/// The resource that `name` resolves to.
pub open spec fn resolve(m: Model, name: Seq<char>) -> Option<usize> {
    match latest_binding(m.bindings, name) {
        Some(i) => Some(m.bindings[i].resource),
        None => None,
    }
}

/// The binding that an operation reads, borrows, moves or clones.
pub open spec fn subject(a: Action) -> Option<String> {
    match a {
        Action::Use { name } => Some(name),
        Action::BorrowShared { name, .. } => Some(name),
        Action::BorrowExclusive { name, .. } => Some(name),
        Action::Move { from, .. } => Some(from),
        Action::Clone { from, .. } => Some(from),
        _ => None,
    }
}

/// A fail-fast pass that has reported a violation ignores what follows.
pub open spec fn halted(m: Model) -> bool {
    m.fail_fast && m.diagnostics.len() > 0
}

pub open spec fn report(m: Model, kind: DiagnosticKind, location: u64, resource: Option<usize>, name: Option<String>) -> Model {
    Model {
        diagnostics: m.diagnostics.push(Diagnostic { kind, location, resource, name }),
        ..m
    }
}

pub open spec fn invalidate(m: Model, r: usize) -> Model {
    Model { states: m.states.update(r as int, ResourceState::Invalid), ..m }
}

pub open spec fn set_state(m: Model, r: usize, s: ResourceState) -> Model {
    Model { states: m.states.update(r as int, s), ..m }
}

/// Binds `name` in the innermost scope to a new resource in state `s`.
pub open spec fn bind_new(m: Model, name: String, mutable: bool, s: ResourceState) -> Model {
    Model {
        states: m.states.push(s),
        bindings: m.bindings.push(
            Binding {
                name,
                resource: m.states.len() as usize,
                mutable,
                depth: m.frames.len() as usize,
            },
        ),
        ..m
    }
}

/// The violation that reading a resource in state `s` is, if any. An
/// invalid resource was already reported and is not reported again.
pub open spec fn read_fault(s: ResourceState) -> Option<DiagnosticKind> {
    match s {
        ResourceState::Moved => Some(DiagnosticKind::UseAfterMove),
        ResourceState::Dropped => Some(DiagnosticKind::UseAfterDrop),
        _ => None,
    }
}

/// The violation that moving a resource in state `s` out is, if any.
pub open spec fn move_fault(s: ResourceState) -> Option<DiagnosticKind> {
    match s {
        ResourceState::Moved => Some(DiagnosticKind::DoubleMove),
        ResourceState::Dropped => Some(DiagnosticKind::UseAfterDrop),
        _ => None,
    }
}

pub open spec fn borrow_kind_fault(e: BorrowError) -> DiagnosticKind {
    match e {
        BorrowError::Conflict(c) => DiagnosticKind::BorrowConflict(c),
        BorrowError::Dangling => DiagnosticKind::DanglingBorrow,
    }
}

/// `Use`: an unknown name or a moved or dropped resource is reported, and
/// the resource becomes invalid.
pub open spec fn use_next(m: Model, name: String, loc: u64) -> Model {
    match latest_binding(m.bindings, name@) {
        None => report(m, DiagnosticKind::UnknownBinding, loc, None, Some(name)),
        Some(i) => {
            let r = m.bindings[i].resource;
            match read_fault(m.states[r as int]) {
                Some(k) => invalidate(report(m, k, loc, Some(r), Some(name)), r),
                None => m,
            }
        },
    }
}

/// `Move`: a live resource becomes moved and `to` is bound to a new live
/// resource. On a violation, or from an invalid resource, `to` is bound to
/// an invalid resource so that its own uses are not reported again.
pub open spec fn move_next(m: Model, from: String, to: String, loc: u64) -> Model {
    match latest_binding(m.bindings, from@) {
        None => bind_new(
            report(m, DiagnosticKind::UnknownBinding, loc, None, Some(from)),
            to,
            false,
            ResourceState::Invalid,
        ),
        Some(i) => {
            let r = m.bindings[i].resource;
            let s = m.states[r as int];
            if s == ResourceState::Live {
                bind_new(set_state(m, r, ResourceState::Moved), to, false, ResourceState::Live)
            } else {
                match move_fault(s) {
                    Some(k) => bind_new(
                        invalidate(report(m, k, loc, Some(r), Some(from)), r),
                        to,
                        false,
                        ResourceState::Invalid,
                    ),
                    None => bind_new(m, to, false, ResourceState::Invalid),
                }
            }
        },
    }
}

/// `Clone`: from a live resource, `to` is bound to a new live resource and
/// the source is untouched. Violations are treated as for `Move`.
pub open spec fn clone_next(m: Model, from: String, to: String, loc: u64) -> Model {
    match latest_binding(m.bindings, from@) {
        None => bind_new(
            report(m, DiagnosticKind::UnknownBinding, loc, None, Some(from)),
            to,
            false,
            ResourceState::Invalid,
        ),
        Some(i) => {
            let r = m.bindings[i].resource;
            let s = m.states[r as int];
            if s == ResourceState::Live {
                bind_new(m, to, false, ResourceState::Live)
            } else {
                match read_fault(s) {
                    Some(k) => bind_new(
                        invalidate(report(m, k, loc, Some(r), Some(from)), r),
                        to,
                        false,
                        ResourceState::Invalid,
                    ),
                    None => bind_new(m, to, false, ResourceState::Invalid),
                }
            }
        },
    }
}

/// A borrow request from the innermost scope. A moved or dropped resource
/// is reported as a read is; an invalid one is ignored; a refused request
/// is reported under the borrow's name and invalidates the resource.
pub open spec fn borrow_next(m: Model, name: String, borrow: String, kind: BorrowKind, loc: u64) -> Model {
    match latest_binding(m.bindings, name@) {
        None => report(m, DiagnosticKind::UnknownBinding, loc, None, Some(name)),
        Some(i) => {
            let r = m.bindings[i].resource;
            let s = m.states[r as int];
            if s == ResourceState::Live {
                let depth = m.frames.len() as usize;
                let outcome = if kind == BorrowKind::Shared {
                    shared_outcome(m.borrows, r, depth, m.bindings[i].depth)
                } else {
                    exclusive_outcome(m.borrows, r, depth, m.bindings[i].depth)
                };
                match outcome {
                    Ok(_) => Model {
                        borrows: m.borrows.push(
                            Borrow { name: borrow, resource: r, kind, depth, active: true },
                        ),
                        ..m
                    },
                    Err(e) => invalidate(
                        report(m, borrow_kind_fault(e), loc, Some(r), Some(borrow)),
                        r,
                    ),
                }
            } else {
                match read_fault(s) {
                    Some(k) => invalidate(report(m, k, loc, Some(r), Some(name)), r),
                    None => m,
                }
            }
        },
    }
}

/// `EndBorrow`: the latest borrow of that name ends; ending an ended
/// borrow changes nothing; an unknown borrow name is reported.
pub open spec fn end_borrow_next(m: Model, borrow: String, loc: u64) -> Model {
    match latest_borrow(m.borrows, borrow@) {
        None => report(m, DiagnosticKind::UnknownBinding, loc, None, Some(borrow)),
        Some(i) => Model { borrows: m.borrows.update(i, ended(m.borrows[i])), ..m },
    }
}

/// Closing the innermost scope: its bindings' live resources are dropped,
/// its bindings go, and every borrow created in it or deeper ends. With
/// only the root scope open nothing changes.
pub open spec fn exit_next(m: Model) -> Model {
    if m.frames.len() == 0 {
        m
    } else {
        let start = m.frames.last() as int;
        let closing = m.bindings.subrange(start, m.bindings.len() as int);
        Model {
            states: with_dropped(m.states, drop_order(closing, m.states)),
            bindings: m.bindings.subrange(0, start),
            frames: m.frames.drop_last(),
            borrows: end_from(m.borrows, m.frames.len() as usize),
            ..m
        }
    }
}

/// The effect of one operation.
pub open spec fn next(m: Model, op: Operation) -> Model {
    if halted(m) {
        m
    } else {
        let loc = op.location;
        match op.action {
            Action::Bind { name, mutable } => bind_new(m, name, mutable, ResourceState::Live),
            Action::Move { from, to } => move_next(m, from, to, loc),
            Action::Clone { from, to } => clone_next(m, from, to, loc),
            Action::BorrowShared { name, borrow } => borrow_next(
                m,
                name,
                borrow,
                BorrowKind::Shared,
                loc,
            ),
            Action::BorrowExclusive { name, borrow } => borrow_next(
                m,
                name,
                borrow,
                BorrowKind::Exclusive,
                loc,
            ),
            Action::EndBorrow { borrow } => end_borrow_next(m, borrow, loc),
            Action::Use { name } => use_next(m, name, loc),
            Action::EnterScope => Model {
                frames: m.frames.push(m.bindings.len() as usize),
                ..m
            },
            Action::ExitScope => exit_next(m),
        }
    }
}

/// The state after the operations `ops`, in order, from `m`.
pub open spec fn run(m: Model, ops: Seq<Operation>) -> Model
    decreases ops.len(),
{
    if ops.len() == 0 {
        m
    } else {
        next(run(m, ops.drop_last()), ops.last())
    }
}

/// Every open scope but the root closed, innermost first.
pub open spec fn close_all(m: Model) -> Model
    decreases m.frames.len(),
{
    if m.frames.len() == 0 {
        m
    } else {
        close_all(exit_next(m))
    }
}

/// The state of one pass over a trace.
pub struct Verifier {
    pub tracker: Tracker,
    pub borrows: BorrowTable,
    pub diagnostics: Vec<Diagnostic>,
    pub fail_fast: bool,
}

impl View for Verifier {
    type V = Model;

    open spec fn view(&self) -> Model {
        Model {
            states: self.tracker.table@,
            bindings: self.tracker.bindings@,
            frames: self.tracker.frames@,
            borrows: self.borrows@,
            diagnostics: self.diagnostics@,
            fail_fast: self.fail_fast,
        }
    }
}

impl Verifier {
    pub open spec fn wf(&self) -> bool {
        self.tracker.wf()
    }

    /// Room for one more resource and one more scope.
    pub open spec fn has_room(&self) -> bool {
        self.tracker.table@.len() < usize::MAX && self.tracker.frames@.len() + 2 < usize::MAX
    }

    /// A pass that has seen nothing yet.
    pub fn new(config: Config) -> (v: Verifier)
        ensures
            v.wf(),
            v@ == initial(config.fail_fast),
    {
        let v = Verifier {
            tracker: Tracker::new(),
            borrows: BorrowTable::new(),
            diagnostics: Vec::new(),
            fail_fast: config.fail_fast,
        };
        proof {
            assert(v@.states =~= initial(config.fail_fast).states);
        }
        v
    }

    fn report(&mut self, kind: DiagnosticKind, location: u64, resource: Option<usize>, name: Option<String>)
        ensures
            final(self).tracker == old(self).tracker,
            final(self).borrows == old(self).borrows,
            final(self).fail_fast == old(self).fail_fast,
            final(self).diagnostics@ == old(self).diagnostics@.push(
                Diagnostic { kind, location, resource, name },
            ),
    {
        self.diagnostics.push(Diagnostic { kind, location, resource, name });
    }

    fn invalidate(&mut self, r: usize)
        requires
            old(self).wf(),
            r < old(self).tracker.table@.len(),
        ensures
            final(self).wf(),
            final(self)@ == invalidate(old(self)@, r),
    {
        self.tracker.table.invalidate(r);
    }

    fn do_use(&mut self, name: String, loc: u64)
        requires
            old(self).wf(),
        ensures
            final(self).wf(),
            final(self)@ == use_next(old(self)@, name, loc),
            final(self)@.states.len() == old(self)@.states.len(),
    {
        proof {
            lemma_latest_binding_found(self.tracker.bindings@, name@);
        }
        match self.tracker.read(&name) {
            Ok(_) => {},
            Err(AccessError::Unknown) => {
                self.report(DiagnosticKind::UnknownBinding, loc, None, Some(name));
            },
            Err(AccessError::NotLive(r, ResourceState::Moved)) => {
                self.report(DiagnosticKind::UseAfterMove, loc, Some(r), Some(name));
                self.invalidate(r);
            },
            Err(AccessError::NotLive(r, ResourceState::Dropped)) => {
                self.report(DiagnosticKind::UseAfterDrop, loc, Some(r), Some(name));
                self.invalidate(r);
            },
            Err(AccessError::NotLive(_, _)) => {},
        }
    }

    fn bind_new(&mut self, name: String, mutable: bool, state: ResourceState)
        requires
            old(self).wf(),
            old(self).tracker.table@.len() < usize::MAX,
        ensures
            final(self).wf(),
            final(self)@ == bind_new(old(self)@, name, mutable, state),
            final(self)@.states.len() == old(self)@.states.len() + 1,
    {
        let _ = self.tracker.bind(name, mutable, state);
    }

    fn do_move(&mut self, from: String, to: String, loc: u64)
        requires
            old(self).wf(),
            old(self).has_room(),
        ensures
            final(self).wf(),
            final(self)@ == move_next(old(self)@, from, to, loc),
            final(self)@.states.len() == old(self)@.states.len() + 1,
    {
        proof {
            lemma_latest_binding_found(self.tracker.bindings@, from@);
        }
        match self.tracker.move_out(&from) {
            Ok(_) => {
                self.bind_new(to, false, ResourceState::Live);
            },
            Err(AccessError::Unknown) => {
                self.report(DiagnosticKind::UnknownBinding, loc, None, Some(from));
                self.bind_new(to, false, ResourceState::Invalid);
            },
            Err(AccessError::NotLive(r, ResourceState::Moved)) => {
                self.report(DiagnosticKind::DoubleMove, loc, Some(r), Some(from));
                self.invalidate(r);
                self.bind_new(to, false, ResourceState::Invalid);
            },
            Err(AccessError::NotLive(r, ResourceState::Dropped)) => {
                self.report(DiagnosticKind::UseAfterDrop, loc, Some(r), Some(from));
                self.invalidate(r);
                self.bind_new(to, false, ResourceState::Invalid);
            },
            Err(AccessError::NotLive(_, _)) => {
                self.bind_new(to, false, ResourceState::Invalid);
            },
        }
    }

    fn do_clone(&mut self, from: String, to: String, loc: u64)
        requires
            old(self).wf(),
            old(self).has_room(),
        ensures
            final(self).wf(),
            final(self)@ == clone_next(old(self)@, from, to, loc),
            final(self)@.states.len() == old(self)@.states.len() + 1,
    {
        proof {
            lemma_latest_binding_found(self.tracker.bindings@, from@);
        }
        let label = to.clone();
        match self.tracker.clone_binding(&from, to) {
            Ok(_) => {},
            Err(AccessError::Unknown) => {
                self.report(DiagnosticKind::UnknownBinding, loc, None, Some(from));
                self.bind_new(label, false, ResourceState::Invalid);
            },
            Err(AccessError::NotLive(r, ResourceState::Moved)) => {
                self.report(DiagnosticKind::UseAfterMove, loc, Some(r), Some(from));
                self.invalidate(r);
                self.bind_new(label, false, ResourceState::Invalid);
            },
            Err(AccessError::NotLive(r, ResourceState::Dropped)) => {
                self.report(DiagnosticKind::UseAfterDrop, loc, Some(r), Some(from));
                self.invalidate(r);
                self.bind_new(label, false, ResourceState::Invalid);
            },
            Err(AccessError::NotLive(_, _)) => {
                self.bind_new(label, false, ResourceState::Invalid);
            },
        }
    }

    fn do_borrow(&mut self, name: String, borrow: String, kind: BorrowKind, loc: u64)
        requires
            old(self).wf(),
        ensures
            final(self).wf(),
            final(self)@ == borrow_next(old(self)@, name, borrow, kind, loc),
            final(self)@.states.len() == old(self)@.states.len(),
    {
        proof {
            lemma_latest_binding_found(self.tracker.bindings@, name@);
        }
        match self.tracker.lookup(&name) {
            None => {
                self.report(DiagnosticKind::UnknownBinding, loc, None, Some(name));
            },
            Some(i) => {
                let r: usize = self.tracker.bindings[i].resource;
                let owner: usize = self.tracker.bindings[i].depth;
                match self.tracker.table.state(r) {
                    ResourceState::Live => {
                        let depth: usize = self.tracker.depth();
                        let label = borrow.clone();
                        let res = if kind == BorrowKind::Shared {
                            self.borrows.request_shared(label, r, depth, owner)
                        } else {
                            self.borrows.request_exclusive(label, r, depth, owner)
                        };
                        match res {
                            Ok(()) => {},
                            Err(e) => {
                                let k = match e {
                                    BorrowError::Conflict(c) => DiagnosticKind::BorrowConflict(c),
                                    BorrowError::Dangling => DiagnosticKind::DanglingBorrow,
                                };
                                self.report(k, loc, Some(r), Some(borrow));
                                self.invalidate(r);
                            },
                        }
                    },
                    ResourceState::Moved => {
                        self.report(DiagnosticKind::UseAfterMove, loc, Some(r), Some(name));
                        self.invalidate(r);
                    },
                    ResourceState::Dropped => {
                        self.report(DiagnosticKind::UseAfterDrop, loc, Some(r), Some(name));
                        self.invalidate(r);
                    },
                    ResourceState::Invalid => {},
                }
            },
        }
    }

    fn do_end_borrow(&mut self, borrow: String, loc: u64)
        requires
            old(self).wf(),
        ensures
            final(self).wf(),
            final(self)@ == end_borrow_next(old(self)@, borrow, loc),
            final(self)@.states.len() == old(self)@.states.len(),
    {
        if !self.borrows.release(&borrow) {
            self.report(DiagnosticKind::UnknownBinding, loc, None, Some(borrow));
        }
    }

    fn do_exit(&mut self)
        requires
            old(self).wf(),
        ensures
            final(self).wf(),
            final(self)@ == exit_next(old(self)@),
            final(self)@.states.len() == old(self)@.states.len(),
    {
        let depth: usize = self.tracker.depth();
        if depth > 0 {
            let _ = self.tracker.exit_scope();
            self.borrows.end_from_depth(depth);
        }
    }

    /// Applies one operation. A fail-fast pass that has already reported a
    /// violation ignores it.
    pub fn step(&mut self, op: Operation)
        requires
            old(self).wf(),
            old(self).has_room(),
        ensures
            final(self).wf(),
            final(self)@ == next(old(self)@, op),
            final(self)@.states.len() <= old(self)@.states.len() + 1,
            final(self)@.frames.len() <= old(self)@.frames.len() + 1,
    {
        if self.fail_fast && self.diagnostics.len() > 0 {
            return;
        }
        let Operation { action, location } = op;
        match action {
            Action::Bind { name, mutable } => {
                self.bind_new(name, mutable, ResourceState::Live);
            },
            Action::Move { from, to } => {
                self.do_move(from, to, location);
            },
            Action::Clone { from, to } => {
                self.do_clone(from, to, location);
            },
            Action::BorrowShared { name, borrow } => {
                self.do_borrow(name, borrow, BorrowKind::Shared, location);
            },
            Action::BorrowExclusive { name, borrow } => {
                self.do_borrow(name, borrow, BorrowKind::Exclusive, location);
            },
            Action::EndBorrow { borrow } => {
                self.do_end_borrow(borrow, location);
            },
            Action::Use { name } => {
                self.do_use(name, location);
            },
            Action::EnterScope => {
                self.tracker.enter_scope();
            },
            Action::ExitScope => {
                self.do_exit();
            },
        }
    }

    /// Closes every open scope but the root, innermost first, as at the
    /// end of a trace.
    pub fn finish(&mut self)
        requires
            old(self).wf(),
        ensures
            final(self).wf(),
            final(self)@ == close_all(old(self)@),
    {
        while self.tracker.depth() > 0
            invariant
                self.wf(),
                close_all(self@) == close_all(old(self)@),
            decreases self.tracker.frames@.len(),
        {
            self.do_exit();
        }
    }
}

/// Closing scopes reports nothing.
pub proof fn lemma_close_all_keeps_diagnostics(m: Model)
    ensures
        close_all(m).diagnostics == m.diagnostics,
    decreases m.frames.len(),
{
    if m.frames.len() > 0 {
        lemma_close_all_keeps_diagnostics(exit_next(m));
    }
}

/// Once a fail-fast pass has halted, the operations that follow change
/// nothing.
proof fn lemma_run_after_halt(m: Model, ops: Seq<Operation>, i: int, j: int)
    requires
        0 <= i <= j <= ops.len(),
        halted(run(m, ops.subrange(0, i))),
    ensures
        run(m, ops.subrange(0, j)) == run(m, ops.subrange(0, i)),
    decreases j - i,
{
    if j > i {
        lemma_run_after_halt(m, ops, i, j - 1);
        assert(ops.subrange(0, j).drop_last() =~= ops.subrange(0, j - 1));
    }
}

/// Runs a whole trace (in a fail-fast pass, up to its first violation),
/// then closes the scopes left open, and returns the final state of the
/// pass.
pub fn analyze(ops: Vec<Operation>, config: Config) -> (v: Verifier)
    requires
        ops@.len() + 3 < usize::MAX,
    ensures
        v.wf(),
        v@ == close_all(run(initial(config.fail_fast), ops@)),
{
    let ghost orig = ops@;
    let ghost n = ops@.len() as int;
    let mut ops = ops;
    let mut rev: Vec<Operation> = Vec::new();
    proof {
        assert(orig.subrange(0, n) =~= orig);
    }
    while ops.len() > 0
        invariant
            ops@ == orig.subrange(0, ops@.len() as int),
            rev@.len() + ops@.len() == n,
            n == orig.len(),
            forall|k: int| 0 <= k < rev@.len() ==> #[trigger] rev@[k] == orig[n - 1 - k],
        decreases ops@.len(),
    {
        let op = ops.pop().unwrap();
        rev.push(op);
        proof {
            assert(ops@ =~= orig.subrange(0, ops@.len() as int));
        }
    }
    let mut v = Verifier::new(config);
    let mut i: usize = 0;
    proof {
        assert(orig.subrange(0, 0) =~= Seq::<Operation>::empty());
        assert(orig.subrange(0, n) =~= orig);
    }
    while rev.len() > 0
        invariant
            orig.subrange(0, n) == orig,
            v.wf(),
            rev@.len() + i == n,
            n == orig.len(),
            n + 3 < usize::MAX,
            forall|k: int| 0 <= k < rev@.len() ==> #[trigger] rev@[k] == orig[n - 1 - k],
            v@ == run(initial(config.fail_fast), orig.subrange(0, i as int)),
            v@.states.len() <= i,
            v@.frames.len() <= i,
        ensures
            v.wf(),
            v@ == run(initial(config.fail_fast), orig),
        decreases rev@.len(),
    {
        if v.fail_fast && v.diagnostics.len() > 0 {
            proof {
                lemma_run_after_halt(initial(config.fail_fast), orig, i as int, n);
            }
            break;
        }
        let op = rev.pop().unwrap();
        proof {
            assert(op == orig[i as int]);
            let pre = orig.subrange(0, i + 1);
            assert(pre.drop_last() =~= orig.subrange(0, i as int));
            assert(pre.last() == orig[i as int]);
        }
        v.step(op);
        i += 1;
    }
    v.finish();
    v
}

/// Verifies a trace: whether it obeys the ownership rules, and the
/// diagnostics of its violations in the order they were found (only the
/// first with `fail_fast`).
pub fn verify(ops: Vec<Operation>, config: Config) -> (res: (bool, Vec<Diagnostic>))
    requires
        ops@.len() + 3 < usize::MAX,
    ensures
        res.1@ == run(initial(config.fail_fast), ops@).diagnostics,
        res.0 == (res.1@.len() == 0),
{
    let v = analyze(ops, config);
    proof {
        lemma_close_all_keeps_diagnostics(run(initial(config.fail_fast), ops@));
    }
    let ok = v.diagnostics.len() == 0;
    (ok, v.diagnostics)
}

} // verus!
