use textlog::oplog::ListOpLog;

/// len_at tallies the transformed ops rather than replaying them, so it
/// has to agree with a checkout at every version -- including ones where
/// concurrent deletes overlap, and the same character is deleted twice.
#[test]
fn len_at_matches_checkout() {
    let mut oplog = ListOpLog::new();
    let a = oplog.get_or_create_agent_id("a");
    let b = oplog.get_or_create_agent_id("b");

    let base = oplog.add_insert_at(a, &[], 0, "hello world");

    // Both agents branch from `base` and delete overlapping ranges.
    let a_del = oplog.add_delete_at(a, &[base], (0..6).into());  // "hello "
    let b_del = oplog.add_delete_at(b, &[base], (3..8).into());  // "lo wo"

    // ...and then one of them types again on top of the merge.
    let tip = oplog.add_insert_at(a, &[a_del, b_del], 1, "XY");

    for version in [vec![base], vec![a_del], vec![b_del],
                    vec![a_del, b_del], vec![tip]] {
        assert_eq!(oplog.len_at(&version), oplog.checkout(&version).len(),
                   "length disagrees at {version:?}");
    }
}
