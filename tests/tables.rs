use ownership_verifier::borrow::{AliasState, BorrowError, BorrowTable, ConflictKind};
use ownership_verifier::resource::{ResourceState, ResourceTable};
use ownership_verifier::scope::{AccessError, Tracker};

#[test]
fn resource_table_transitions() {
    let mut t = ResourceTable::new();
    let a = t.allocate();
    let b = t.allocate();
    assert_eq!((a, b), (0, 1));
    assert_eq!(t.len(), 2);
    assert!(t.is_live(a));
    assert_eq!(t.mark_moved(a), Ok(()));
    assert_eq!(t.mark_moved(a), Err(ResourceState::Moved));
    assert_eq!(t.mark_dropped(a), Ok(()));
    assert_eq!(t.state(a), ResourceState::Dropped);
    assert!(t.is_live(b));
}

#[test]
fn double_drop_is_refused() {
    let mut t = ResourceTable::new();
    let a = t.allocate();
    assert_eq!(t.mark_dropped(a), Ok(()));
    assert_eq!(t.mark_dropped(a), Err(ResourceState::Dropped));
    assert_eq!(t.mark_moved(a), Err(ResourceState::Dropped));
    t.invalidate(a);
    assert_eq!(t.mark_dropped(a), Err(ResourceState::Invalid));
}

#[test]
fn borrow_table_states() {
    let mut b = BorrowTable::new();
    assert_eq!(b.alias_state(0), AliasState::Unborrowed);
    assert_eq!(b.request_shared("x".to_string(), 0, 0, 0), Ok(()));
    assert_eq!(b.request_shared("y".to_string(), 0, 0, 0), Ok(()));
    assert_eq!(b.alias_state(0), AliasState::Shared(2));
    assert_eq!(
        b.request_exclusive("z".to_string(), 0, 0, 0),
        Err(BorrowError::Conflict(ConflictKind::ExclusiveWhileBorrowed))
    );
    assert!(b.release(&"x".to_string()));
    assert_eq!(b.alias_state(0), AliasState::Shared(1));
    assert!(b.release(&"y".to_string()));
    assert!(b.release(&"y".to_string()));
    assert!(!b.release(&"w".to_string()));
    assert_eq!(b.alias_state(0), AliasState::Unborrowed);
    assert_eq!(b.request_exclusive("z".to_string(), 0, 0, 0), Ok(()));
    assert_eq!(b.alias_state(0), AliasState::Exclusive);
    assert_eq!(b.alias_state(1), AliasState::Unborrowed);
    assert_eq!(
        b.request_shared("v".to_string(), 0, 0, 0),
        Err(BorrowError::Conflict(ConflictKind::SharedWhileExclusive))
    );
}

#[test]
fn dangling_borrow_is_refused() {
    let mut b = BorrowTable::new();
    assert_eq!(b.request_shared("x".to_string(), 3, 1, 2), Err(BorrowError::Dangling));
    assert_eq!(b.request_exclusive("x".to_string(), 3, 1, 2), Err(BorrowError::Dangling));
    assert!(b.borrows.is_empty());
    assert_eq!(b.find(&"x".to_string()), None);
}

#[test]
fn end_from_depth_ends_deeper_borrows() {
    let mut b = BorrowTable::new();
    assert_eq!(b.request_shared("outer".to_string(), 0, 0, 0), Ok(()));
    assert_eq!(b.request_shared("inner".to_string(), 0, 2, 0), Ok(()));
    b.end_from_depth(1);
    assert!(b.borrows[0].active);
    assert!(!b.borrows[1].active);
}

#[test]
fn exit_scope_drops_live_bindings_in_reverse_order() {
    let mut t = Tracker::new();
    let keep = t.bind("keep".to_string(), false, ResourceState::Live);
    t.enter_scope();
    assert_eq!(t.depth(), 1);
    let x = t.bind("x".to_string(), true, ResourceState::Live);
    let y = t.bind("y".to_string(), false, ResourceState::Live);
    let z = t.bind("z".to_string(), false, ResourceState::Live);
    assert_eq!(t.table.mark_moved(y), Ok(()));
    let dropped = t.exit_scope();
    assert_eq!(dropped, vec![z, x]);
    assert_eq!(t.table.state(x), ResourceState::Dropped);
    assert_eq!(t.table.state(y), ResourceState::Moved);
    assert_eq!(t.table.state(keep), ResourceState::Live);
    assert_eq!(t.lookup(&"x".to_string()), None);
    assert_eq!(t.lookup(&"keep".to_string()), Some(0));
    assert_eq!(t.exit_scope(), Vec::<usize>::new());
}

#[test]
fn lookup_finds_the_latest_binding() {
    let mut t = Tracker::new();
    t.bind("s".to_string(), false, ResourceState::Live);
    t.bind("other".to_string(), false, ResourceState::Live);
    t.bind("s".to_string(), false, ResourceState::Live);
    assert_eq!(t.lookup(&"s".to_string()), Some(2));
    assert_eq!(t.lookup(&"other".to_string()), Some(1));
}

#[test]
fn tracker_read_move_and_clone() {
    let mut t = Tracker::new();
    let a = t.bind("a".to_string(), false, ResourceState::Live);
    assert_eq!(t.read(&"a".to_string()), Ok(a));
    assert_eq!(t.read(&"zz".to_string()), Err(AccessError::Unknown));
    let c = t.clone_binding(&"a".to_string(), "c".to_string());
    assert_eq!(c, Ok(1));
    assert_eq!(t.move_out(&"a".to_string()), Ok(a));
    assert_eq!(t.table.state(a), ResourceState::Moved);
    assert_eq!(t.read(&"c".to_string()), Ok(1));
    assert_eq!(t.read(&"a".to_string()), Err(AccessError::NotLive(a, ResourceState::Moved)));
    assert_eq!(t.move_out(&"a".to_string()), Err(AccessError::NotLive(a, ResourceState::Moved)));
    assert_eq!(
        t.clone_binding(&"a".to_string(), "d".to_string()),
        Err(AccessError::NotLive(a, ResourceState::Moved))
    );
    assert_eq!(t.lookup(&"d".to_string()), None);
    assert_eq!(t.table.len(), 2);
}

#[test]
fn moving_the_clone_leaves_the_source() {
    let mut t = Tracker::new();
    let a = t.bind("a".to_string(), false, ResourceState::Live);
    let c = t.clone_binding(&"a".to_string(), "c".to_string()).unwrap();
    assert_ne!(a, c);
    assert_eq!(t.move_out(&"c".to_string()), Ok(c));
    assert_eq!(t.table.state(a), ResourceState::Live);
    assert_eq!(t.table.state(c), ResourceState::Moved);
}
