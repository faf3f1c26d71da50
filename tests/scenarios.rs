use ownership_verifier::borrow::{BorrowKind, ConflictKind};
use ownership_verifier::diagnostic::DiagnosticKind;
use ownership_verifier::driver::{analyze, verify, Action, Config, Operation};
use ownership_verifier::resource::ResourceState;

fn at(location: u64, action: Action) -> Operation {
    Operation { action, location }
}

fn bind(name: &str) -> Action {
    Action::Bind { name: name.to_string(), mutable: false }
}

fn mv(from: &str, to: &str) -> Action {
    Action::Move { from: from.to_string(), to: to.to_string() }
}

fn cl(from: &str, to: &str) -> Action {
    Action::Clone { from: from.to_string(), to: to.to_string() }
}

fn shared(name: &str, borrow: &str) -> Action {
    Action::BorrowShared { name: name.to_string(), borrow: borrow.to_string() }
}

fn exclusive(name: &str, borrow: &str) -> Action {
    Action::BorrowExclusive { name: name.to_string(), borrow: borrow.to_string() }
}

fn end(borrow: &str) -> Action {
    Action::EndBorrow { borrow: borrow.to_string() }
}

fn use_(name: &str) -> Action {
    Action::Use { name: name.to_string() }
}

fn trace(actions: Vec<Action>) -> Vec<Operation> {
    let mut ops = Vec::new();
    for (i, a) in actions.into_iter().enumerate() {
        ops.push(at(i as u64 + 1, a));
    }
    ops
}

const COLLECT: Config = Config { fail_fast: false };

#[test]
fn use_after_move_is_reported_once() {
    let (ok, diags) = verify(trace(vec![bind("r1"), mv("r1", "r2"), use_("r1")]), COLLECT);
    assert!(!ok);
    assert_eq!(diags.len(), 1);
    assert_eq!(diags[0].kind, DiagnosticKind::UseAfterMove);
    assert_eq!(diags[0].name, Some("r1".to_string()));
    assert_eq!(diags[0].location, 3);
    assert_eq!(diags[0].resource, Some(0));
}

#[test]
fn two_shared_borrows_coexist() {
    let ops = trace(vec![bind("r1"), shared("r1", "b1"), shared("r1", "b2")]);
    let v = analyze(ops, COLLECT);
    assert!(v.diagnostics.is_empty());
    assert_eq!(v.borrows.borrows.len(), 2);
    assert!(v.borrows.borrows[0].active && v.borrows.borrows[1].active);
    assert_eq!(v.borrows.borrows[0].kind, BorrowKind::Shared);
    assert_eq!(v.borrows.borrows[1].kind, BorrowKind::Shared);
}

#[test]
fn shared_while_exclusive_is_a_conflict() {
    let ops = trace(vec![bind("r1"), exclusive("r1", "b1"), shared("r1", "b2")]);
    let (ok, diags) = verify(ops, COLLECT);
    assert!(!ok);
    assert_eq!(diags.len(), 1);
    assert_eq!(diags[0].kind, DiagnosticKind::BorrowConflict(ConflictKind::SharedWhileExclusive));
    assert_eq!(diags[0].name, Some("b2".to_string()));
}

#[test]
fn exit_scope_drops_and_hides_binding() {
    let ops = trace(vec![Action::EnterScope, bind("r1"), Action::ExitScope, use_("r1")]);
    let v = analyze(ops, COLLECT);
    assert_eq!(v.tracker.table.states[0], ResourceState::Dropped);
    assert_eq!(v.diagnostics.len(), 1);
    assert_eq!(v.diagnostics[0].kind, DiagnosticKind::UnknownBinding);
    assert_eq!(v.diagnostics[0].name, Some("r1".to_string()));
}

#[test]
fn clone_is_unaffected_by_move_of_source() {
    let ops = trace(vec![bind("r1"), cl("r1", "r2"), mv("r1", "r3"), use_("r2")]);
    let v = analyze(ops, COLLECT);
    assert!(v.diagnostics.is_empty());
    assert_eq!(v.tracker.table.states[0], ResourceState::Moved);
    assert_eq!(v.tracker.table.states[1], ResourceState::Live);
}

#[test]
fn sequential_exclusive_borrows_are_allowed() {
    let ops = trace(vec![bind("r1"), exclusive("r1", "b1"), end("b1"), exclusive("r1", "b2")]);
    let (ok, diags) = verify(ops, COLLECT);
    assert!(ok);
    assert!(diags.is_empty());
}

#[test]
fn exclusive_while_shared_is_a_conflict() {
    let ops = trace(vec![bind("r1"), shared("r1", "b1"), exclusive("r1", "b2")]);
    let (_, diags) = verify(ops, COLLECT);
    assert_eq!(diags.len(), 1);
    assert_eq!(diags[0].kind, DiagnosticKind::BorrowConflict(ConflictKind::ExclusiveWhileBorrowed));
    assert_eq!(diags[0].name, Some("b2".to_string()));
}

#[test]
fn second_exclusive_borrow_is_a_conflict() {
    let ops = trace(vec![bind("r1"), exclusive("r1", "b1"), exclusive("r1", "b2")]);
    let v = analyze(ops, COLLECT);
    assert_eq!(v.diagnostics.len(), 1);
    assert_eq!(v.borrows.borrows.len(), 1);
    assert_eq!(v.tracker.table.states[0], ResourceState::Invalid);
}

#[test]
fn double_move_is_reported() {
    let ops = trace(vec![bind("a"), mv("a", "b"), mv("a", "c")]);
    let (_, diags) = verify(ops, COLLECT);
    assert_eq!(diags.len(), 1);
    assert_eq!(diags[0].kind, DiagnosticKind::DoubleMove);
}

#[test]
fn invalid_resource_does_not_cascade() {
    let ops = trace(vec![bind("a"), mv("a", "b"), use_("a"), use_("a"), shared("a", "x"), mv("a", "c"), use_("c")]);
    let (_, diags) = verify(ops, COLLECT);
    assert_eq!(diags.len(), 1);
    assert_eq!(diags[0].kind, DiagnosticKind::UseAfterMove);
}

#[test]
fn borrow_after_move_is_reported() {
    let ops = trace(vec![bind("a"), mv("a", "b"), exclusive("a", "x")]);
    let v = analyze(ops, COLLECT);
    assert_eq!(v.diagnostics.len(), 1);
    assert_eq!(v.diagnostics[0].kind, DiagnosticKind::UseAfterMove);
    assert!(v.borrows.borrows.is_empty());
}

#[test]
fn clone_after_move_is_reported() {
    let ops = trace(vec![bind("a"), mv("a", "b"), cl("a", "c")]);
    let (_, diags) = verify(ops, COLLECT);
    assert_eq!(diags.len(), 1);
    assert_eq!(diags[0].kind, DiagnosticKind::UseAfterMove);
}

#[test]
fn unknown_names_are_reported() {
    let ops = trace(vec![use_("ghost"), end("nothing")]);
    let (_, diags) = verify(ops, COLLECT);
    assert_eq!(diags.len(), 2);
    assert_eq!(diags[0].kind, DiagnosticKind::UnknownBinding);
    assert_eq!(diags[1].kind, DiagnosticKind::UnknownBinding);
    assert_eq!(diags[1].name, Some("nothing".to_string()));
}

#[test]
fn fail_fast_keeps_only_the_first_diagnostic() {
    let ops = trace(vec![use_("x"), use_("y"), use_("z")]);
    let (ok, diags) = verify(ops, Config { fail_fast: true });
    assert!(!ok);
    assert_eq!(diags.len(), 1);
    assert_eq!(diags[0].name, Some("x".to_string()));
    let ops = trace(vec![use_("x"), use_("y"), use_("z")]);
    let (_, all) = verify(ops, COLLECT);
    assert_eq!(all.len(), 3);
}

#[test]
fn shadowing_keeps_the_old_resource() {
    let ops = trace(vec![bind("s"), bind("s"), mv("s", "t"), use_("s")]);
    let v = analyze(ops, COLLECT);
    assert_eq!(v.tracker.table.states[0], ResourceState::Live);
    assert_eq!(v.tracker.table.states[1], ResourceState::Invalid);
    assert_eq!(v.diagnostics.len(), 1);
    assert_eq!(v.diagnostics[0].resource, Some(1));
}

#[test]
fn exit_scope_ends_inner_borrows() {
    let ops = trace(vec![
        bind("s"),
        Action::EnterScope,
        exclusive("s", "r"),
        Action::ExitScope,
        exclusive("s", "r2"),
    ]);
    let v = analyze(ops, COLLECT);
    assert!(v.diagnostics.is_empty());
    assert!(!v.borrows.borrows[0].active);
    assert!(v.borrows.borrows[1].active);
}

#[test]
fn ending_an_ended_borrow_changes_nothing() {
    let ops = trace(vec![bind("s"), shared("s", "b"), end("b"), end("b")]);
    let (ok, _) = verify(ops, COLLECT);
    assert!(ok);
}

#[test]
fn open_scopes_are_closed_at_the_end() {
    let ops = trace(vec![bind("outer"), Action::EnterScope, bind("inner")]);
    let v = analyze(ops, COLLECT);
    assert_eq!(v.tracker.table.states[0], ResourceState::Live);
    assert_eq!(v.tracker.table.states[1], ResourceState::Dropped);
    assert!(v.tracker.frames.is_empty());
}

#[test]
fn exiting_the_root_scope_changes_nothing() {
    let ops = trace(vec![bind("a"), Action::ExitScope, use_("a")]);
    let v = analyze(ops, COLLECT);
    assert!(v.diagnostics.is_empty());
    assert_eq!(v.tracker.table.states[0], ResourceState::Live);
}

#[test]
fn messages_describe_the_kind() {
    assert_eq!(DiagnosticKind::UseAfterMove.message(), "value used after it was moved");
    assert_eq!(DiagnosticKind::UnknownBinding.message(), "name not found in any visible scope");
}

#[test]
fn default_config_collects_everything() {
    let c = Config::default();
    assert!(!c.fail_fast);
}
