use aptosdb::node::{NodeKey, StaleNodeIndex};
use aptosdb::pruner::{StateMerklePruner, STATE_MERKLE_PRUNER_NAME};
use aptosdb::schemadb::{Db, SchemaBatch};
use aptosdb::state_merkle_db::StateMerkleDb;

fn key(version: u64, path: &[u8]) -> NodeKey {
    NodeKey::new(version, path.to_vec())
}

fn index(stale_since: u64, node_version: u64, path: &[u8]) -> StaleNodeIndex {
    StaleNodeIndex { stale_since_version: stale_since, node_key: key(node_version, path) }
}

/// A database holding, for each `(stale_since, node_version, path)`, the
/// stale entry and its node.
fn db_with(entries: &[(u64, u64, &[u8])], progress: Option<u64>) -> Db {
    let mut db = Db::new();
    for (s, v, p) in entries {
        db.put_node(key(*v, p));
        db.put_stale_node_index(index(*s, *v, p));
    }
    if let Some(v) = progress {
        let mut batch = SchemaBatch::new();
        batch.put_progress(v);
        db.write_schemas(batch);
    }
    db
}

fn stale_versions(db: &Db) -> Vec<u64> {
    (0..db.num_stale_node_indices())
        .map(|i| db.stale_node_index_at(i).stale_since_version)
        .collect()
}

fn shard_progresses(p: &StateMerklePruner) -> Vec<u64> {
    let n = p.state_merkle_db().num_shards();
    (0..n).map(|i| p.get_shard_progress(i)).collect()
}

#[test]
fn new_pruner_over_empty_database_has_nothing_pending() {
    let db = StateMerkleDb::new(Db::new(), vec![Db::new(), Db::new()]);
    let p = StateMerklePruner::new(db);
    assert_eq!(p.min_readable_version(), 0);
    assert_eq!(p.target_version(), 0);
    assert!(!p.is_pruning_pending());
    assert_eq!(shard_progresses(&p), vec![0, 0]);
}

#[test]
fn name_is_the_pruner_name() {
    let p = StateMerklePruner::new(StateMerkleDb::new(Db::new(), vec![]));
    assert_eq!(p.name(), "state_merkle_pruner");
    assert_eq!(STATE_MERKLE_PRUNER_NAME, "state_merkle_pruner");
}

#[test]
fn target_and_progress_read_back_what_was_set() {
    let mut p = StateMerklePruner::new(StateMerkleDb::new(Db::new(), vec![Db::new()]));
    p.set_target_version(42);
    assert_eq!(p.target_version(), 42);
    assert!(p.is_pruning_pending());
    p.record_progress(42);
    assert_eq!(p.min_readable_version(), 42);
    assert!(!p.is_pruning_pending());
    p.testonly_update_min_version(7);
    assert_eq!(p.min_readable_version(), 7);
    assert!(p.is_pruning_pending());
}

#[test]
fn prune_without_pending_work_changes_nothing() {
    let meta = db_with(&[(1, 0, &[1]), (2, 1, &[2])], None);
    let mut p = StateMerklePruner::new(StateMerkleDb::new(meta, vec![]));
    assert_eq!(p.prune(10), 0);
    assert_eq!(stale_versions(p.state_merkle_db().metadata_db()), vec![1, 2]);
    assert_eq!(p.state_merkle_db().metadata_db().get_progress(), None);
}

#[test]
fn prune_removes_top_level_entries_up_to_target() {
    let meta = db_with(&[(1, 0, &[1]), (2, 1, &[2]), (3, 2, &[3]), (5, 4, &[5])], None);
    let mut p = StateMerklePruner::new(StateMerkleDb::new(meta, vec![Db::new()]));
    p.set_target_version(3);
    assert_eq!(p.prune(10), 3);
    assert_eq!(p.min_readable_version(), 3);
    assert!(!p.is_pruning_pending());
    let m = p.state_merkle_db().metadata_db();
    assert_eq!(stale_versions(m), vec![5]);
    assert!(!m.contains_node(&key(0, &[1])));
    assert!(!m.contains_node(&key(1, &[2])));
    assert!(!m.contains_node(&key(2, &[3])));
    assert!(m.contains_node(&key(4, &[5])));
    assert_eq!(m.num_nodes(), 1);
    assert_eq!(m.get_progress(), Some(3));
    assert_eq!(shard_progresses(&p), vec![3]);
    assert_eq!(p.state_merkle_db().db_shard(0).get_progress(), Some(3));
}

#[test]
fn prune_stops_at_last_stale_version_before_target() {
    // Nothing became stale after version 2, so the pruner gets to 2, not 10.
    let meta = db_with(&[(1, 0, &[1]), (2, 1, &[2])], None);
    let mut p = StateMerklePruner::new(StateMerkleDb::new(meta, vec![]));
    p.set_target_version(10);
    assert_eq!(p.prune(10), 2);
    assert_eq!(p.min_readable_version(), 2);
    assert!(p.is_pruning_pending());
    assert_eq!(p.state_merkle_db().metadata_db().num_stale_node_indices(), 0);
    assert_eq!(p.state_merkle_db().metadata_db().get_progress(), Some(2));
}

#[test]
fn prune_with_empty_index_stays_at_progress() {
    let mut p = StateMerklePruner::new(StateMerkleDb::new(Db::new(), vec![Db::new()]));
    p.set_target_version(10);
    assert_eq!(p.prune(4), 0);
    assert_eq!(p.min_readable_version(), 0);
    assert_eq!(p.state_merkle_db().metadata_db().get_progress(), Some(0));
    assert_eq!(shard_progresses(&p), vec![0]);
    // No shard had anything to do, so none was written.
    assert_eq!(p.state_merkle_db().db_shard(0).get_progress(), None);
}

#[test]
fn prune_keeps_entries_newer_than_target() {
    let meta = db_with(&[(4, 0, &[1]), (9, 1, &[2])], None);
    let mut p = StateMerklePruner::new(StateMerkleDb::new(meta, vec![]));
    p.set_target_version(6);
    assert_eq!(p.prune(3), 4);
    assert_eq!(stale_versions(p.state_merkle_db().metadata_db()), vec![9]);
}

#[test]
fn prune_prunes_one_batch_of_a_shard_per_version() {
    let meta = db_with(&[(2, 1, &[0])], None);
    let shard = db_with(&[(2, 1, &[1]), (2, 1, &[2]), (2, 1, &[3]), (3, 2, &[4])], None);
    let mut p = StateMerklePruner::new(StateMerkleDb::new(meta, vec![shard]));
    p.set_target_version(5);
    assert_eq!(p.prune(2), 2);
    let s = p.state_merkle_db().db_shard(0);
    // Two of the three entries stale since version 2 go; the third stays.
    assert_eq!(stale_versions(s), vec![2, 3]);
    assert!(!s.contains_node(&key(1, &[1])));
    assert!(!s.contains_node(&key(1, &[2])));
    assert!(s.contains_node(&key(1, &[3])));
    assert!(s.contains_stale_node_index(&index(2, 1, &[3])));
    assert_eq!(s.get_progress(), Some(2));
    assert_eq!(shard_progresses(&p), vec![2]);
}

#[test]
fn prune_twice_changes_nothing_more() {
    let meta = db_with(&[(1, 0, &[1]), (3, 2, &[3]), (8, 4, &[5])], None);
    let shard = db_with(&[(1, 0, &[7]), (2, 1, &[8])], None);
    let mut p = StateMerklePruner::new(StateMerkleDb::new(meta, vec![shard]));
    p.set_target_version(5);
    let r1 = p.prune(1);
    let meta_after = stale_versions(p.state_merkle_db().metadata_db());
    let shard_after = stale_versions(p.state_merkle_db().db_shard(0));
    let r2 = p.prune(1);
    assert_eq!(r1, 3);
    assert_eq!(r2, r1);
    assert_eq!(stale_versions(p.state_merkle_db().metadata_db()), meta_after);
    assert_eq!(stale_versions(p.state_merkle_db().db_shard(0)), shard_after);
    assert_eq!(meta_after, vec![8]);
}

#[test]
fn prune_with_zero_batch_when_shards_have_nothing_to_do() {
    let meta = db_with(&[(9, 0, &[1])], None);
    let mut p = StateMerklePruner::new(StateMerkleDb::new(meta, vec![Db::new()]));
    p.set_target_version(5);
    assert_eq!(p.prune(0), 0);
    assert_eq!(stale_versions(p.state_merkle_db().metadata_db()), vec![9]);
}

#[test]
fn new_finishes_pending_shard_pruning() {
    let meta = db_with(&[], Some(5));
    let shard = db_with(&[(2, 1, &[1]), (3, 1, &[2]), (5, 1, &[3]), (6, 1, &[4])], Some(3));
    let p = StateMerklePruner::new(StateMerkleDb::new(meta, vec![shard, Db::new()]));
    assert_eq!(p.min_readable_version(), 5);
    assert_eq!(p.target_version(), 0);
    assert_eq!(shard_progresses(&p), vec![5, 5]);
    let s = p.state_merkle_db().db_shard(0);
    assert_eq!(stale_versions(s), vec![2, 6]);
    assert_eq!(s.get_progress(), Some(5));
    assert_eq!(p.state_merkle_db().db_shard(1).get_progress(), Some(5));
}

#[test]
fn initialize_min_readable_version_reads_metadata_progress() {
    let meta = db_with(&[], Some(4));
    let mut p = StateMerklePruner::new(StateMerkleDb::new(meta, vec![Db::new()]));
    assert_eq!(p.initialize_min_readable_version(), 4);
}

#[test]
fn save_min_readable_version_puts_the_progress() {
    let p = StateMerklePruner::new(StateMerkleDb::new(Db::new(), vec![]));
    let mut batch = SchemaBatch::new();
    p.save_min_readable_version(17, &mut batch);
    let mut db = Db::new();
    db.write_schemas(batch);
    assert_eq!(db.get_progress(), Some(17));
}

#[test]
fn prune_genesis_deletes_entries_stale_since_version_zero_or_one() {
    let entries: &[(u64, u64, &[u8])] = &[(0, 0, &[1]), (1, 0, &[2]), (1, 0, &[3]), (2, 1, &[4])];
    let db = StateMerkleDb::new(db_with(entries, None), vec![]);
    let mut batch = SchemaBatch::new();
    StateMerklePruner::prune_genesis(&db, &mut batch);
    let mut target = db_with(entries, Some(7));
    target.write_schemas(batch);
    assert_eq!(stale_versions(&target), vec![2]);
    assert_eq!(target.num_nodes(), 1);
    assert!(target.contains_node(&key(1, &[4])));
    assert!(!target.contains_node(&key(0, &[1])));
    // The batch puts no progress.
    assert_eq!(target.get_progress(), Some(7));
}

#[test]
fn prune_when_progress_is_past_target_changes_nothing() {
    let meta = db_with(&[(1, 0, &[1]), (12, 1, &[2])], None);
    let mut p = StateMerklePruner::new(StateMerkleDb::new(meta, vec![Db::new()]));
    p.record_progress(10);
    p.set_target_version(5);
    assert!(!p.is_pruning_pending());
    assert_eq!(p.prune(3), 10);
    assert_eq!(p.min_readable_version(), 10);
    assert_eq!(stale_versions(p.state_merkle_db().metadata_db()), vec![1, 12]);
    assert_eq!(shard_progresses(&p), vec![0]);
}

#[test]
fn prune_brings_shards_one_batch_per_stop() {
    // The pruner stops at 0, 2 and 4; at each stop a shard loses at most one
    // entry, starting from its own progress.
    let meta = db_with(&[(2, 0, &[1]), (4, 0, &[2])], None);
    let shard = db_with(
        &[(1, 0, &[1]), (1, 0, &[2]), (1, 0, &[3]), (3, 0, &[4]), (3, 0, &[5])],
        None,
    );
    let mut p = StateMerklePruner::new(StateMerkleDb::new(meta, vec![shard, Db::new()]));
    p.set_target_version(4);
    assert_eq!(p.prune(1), 4);
    let s = p.state_merkle_db().db_shard(0);
    assert_eq!(stale_versions(s), vec![1, 1, 3]);
    assert!(!s.contains_stale_node_index(&index(1, 0, &[1])));
    assert!(s.contains_stale_node_index(&index(1, 0, &[2])));
    assert!(!s.contains_stale_node_index(&index(3, 0, &[4])));
    assert_eq!(s.get_progress(), Some(4));
    assert_eq!(shard_progresses(&p), vec![4, 4]);
    assert_eq!(p.state_merkle_db().metadata_db().num_stale_node_indices(), 0);
}

#[test]
fn a_partial_batch_prunes_the_smallest_keys_of_a_version() {
    // Put in descending key order; the index holds them in key order.
    let meta = db_with(&[(2, 0, &[0])], None);
    let shard = db_with(&[(2, 1, &[3]), (2, 1, &[1]), (2, 0, &[9]), (2, 1, &[0, 0])], None);
    let mut p = StateMerklePruner::new(StateMerkleDb::new(meta, vec![shard]));
    p.set_target_version(2);
    assert_eq!(p.prune(2), 2);
    let s = p.state_merkle_db().db_shard(0);
    // Key order: node version 0 first, then shorter paths, then by nibbles.
    assert!(!s.contains_stale_node_index(&index(2, 0, &[9])));
    assert!(!s.contains_stale_node_index(&index(2, 1, &[1])));
    assert!(s.contains_stale_node_index(&index(2, 1, &[3])));
    assert!(s.contains_stale_node_index(&index(2, 1, &[0, 0])));
}

#[test]
fn prune_with_zero_batch_and_no_shards() {
    let meta = db_with(&[(1, 0, &[1]), (3, 0, &[2]), (9, 0, &[3])], None);
    let mut p = StateMerklePruner::new(StateMerkleDb::new(meta, vec![]));
    p.set_target_version(5);
    assert_eq!(p.prune(0), 3);
    assert_eq!(stale_versions(p.state_merkle_db().metadata_db()), vec![9]);
}
