use arena_tree::locks::LockTable;
use arena_tree::tree::NodeId;

#[test]
fn lock_flag_tracks_acquisition() {
    let mut table = LockTable::new(2);
    // Held strictly between a matching acquire and release, false
    // otherwise, not-found outside the allocated range.
    assert_eq!(table.check_lock(NodeId(0)), Some(false));
    table.lock_node(NodeId(0));
    assert_eq!(table.check_lock(NodeId(0)), Some(true));
    assert_eq!(table.check_lock(NodeId(1)), Some(false));
    table.unlock_node(NodeId(0));
    assert_eq!(table.check_lock(NodeId(0)), Some(false));
    assert_eq!(table.check_lock(NodeId(2)), None);
}

#[test]
fn lock_table_grows_on_demand() {
    let mut table = LockTable::new(1);
    assert_eq!(table.check_lock(NodeId(5)), None);
    table.lock_node(NodeId(5));
    // Growth covers the requested handle; fresh entries start unlocked.
    assert_eq!(table.check_lock(NodeId(5)), Some(true));
    assert_eq!(table.check_lock(NodeId(3)), Some(false));
    assert_eq!(table.check_lock(NodeId(0)), Some(false));
    assert_eq!(table.check_lock(NodeId(6)), None);
    table.unlock_node(NodeId(5));
    assert_eq!(table.check_lock(NodeId(5)), Some(false));
}
