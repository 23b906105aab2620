use aptosdb::node::{NodeKey, StaleNodeIndex};
use aptosdb::resource::{AptosResource, Resource};
use aptosdb::schemadb::{Db, SchemaBatch};

fn index(stale_since: u64, node_version: u64, path: &[u8]) -> StaleNodeIndex {
    StaleNodeIndex {
        stale_since_version: stale_since,
        node_key: NodeKey::new(node_version, path.to_vec()),
    }
}

fn versions(db: &Db) -> Vec<(u64, u64)> {
    (0..db.num_stale_node_indices())
        .map(|i| {
            let e = db.stale_node_index_at(i);
            (e.stale_since_version, e.node_key.version())
        })
        .collect()
}

#[test]
fn put_stale_node_index_keeps_version_order() {
    let mut db = Db::new();
    db.put_stale_node_index(index(5, 1, &[1]));
    db.put_stale_node_index(index(2, 2, &[1]));
    db.put_stale_node_index(index(5, 3, &[1]));
    db.put_stale_node_index(index(3, 4, &[1]));
    assert_eq!(versions(&db), vec![(2, 2), (3, 4), (5, 1), (5, 3)]);
    // Putting an entry that is already there changes nothing.
    db.put_stale_node_index(index(3, 4, &[1]));
    assert_eq!(db.num_stale_node_indices(), 4);
    assert!(db.contains_stale_node_index(&index(5, 3, &[1])));
    assert!(!db.contains_stale_node_index(&index(5, 3, &[2])));
}

#[test]
fn seek_lands_on_first_entry_at_or_after_version() {
    let mut db = Db::new();
    for v in [1u64, 3, 3, 7] {
        db.put_stale_node_index(index(v, v, &[v as u8, 0]));
    }
    db.put_stale_node_index(index(3, 9, &[1]));
    assert_eq!(db.seek(0), 0);
    assert_eq!(db.seek(1), 0);
    assert_eq!(db.seek(2), 1);
    assert_eq!(db.seek(3), 1);
    assert_eq!(db.seek(4), 3);
    assert_eq!(db.seek(8), 4);
}

#[test]
fn write_schemas_deletes_and_puts() {
    let mut db = Db::new();
    db.put_stale_node_index(index(1, 0, &[1]));
    db.put_stale_node_index(index(2, 0, &[2]));
    db.put_node(NodeKey::new(0, vec![1]));
    db.put_node(NodeKey::new(0, vec![2]));
    db.put_node(NodeKey::new(0, vec![2]));
    assert_eq!(db.num_nodes(), 2);
    let mut batch = SchemaBatch::new();
    batch.delete_stale_node_index(index(1, 0, &[1]));
    batch.delete_node(NodeKey::new(0, vec![1]));
    batch.delete_node(NodeKey::new(9, vec![9]));
    batch.put_progress(1);
    batch.put_progress(2);
    db.write_schemas(batch);
    assert_eq!(versions(&db), vec![(2, 0)]);
    assert!(!db.contains_node(&NodeKey::new(0, vec![1])));
    assert!(db.contains_node(&NodeKey::new(0, vec![2])));
    assert_eq!(db.get_progress(), Some(2));
    // A batch that puts no progress leaves the stored one.
    db.write_schemas(SchemaBatch::new());
    assert_eq!(db.get_progress(), Some(2));
}

#[test]
fn node_keys_compare_by_version_and_path() {
    let a = NodeKey::new(1, vec![1, 2]);
    assert!(a.same_as(&NodeKey::new(1, vec![1, 2])));
    assert!(!a.same_as(&NodeKey::new(1, vec![1, 3])));
    assert!(!a.same_as(&NodeKey::new(2, vec![1, 2])));
    assert!(!a.same_as(&NodeKey::new(1, vec![1])));
    let d = a.duplicate();
    assert_eq!(d.version(), 1);
    assert_eq!(d.nibble_path(), &vec![1, 2]);
}

#[test]
fn from_blob_is_a_standard_resource() {
    match AptosResource::from_blob(vec![7, 8, 9]) {
        AptosResource::Standard(Resource::Serialized(bytes)) => assert_eq!(bytes, vec![7, 8, 9]),
        _ => panic!("from_blob gave another kind of resource"),
    }
    assert_eq!(Resource::from_blob(vec![]), Resource::Serialized(vec![]));
}

fn paths(db: &Db) -> Vec<Vec<u8>> {
    (0..db.num_stale_node_indices())
        .map(|i| db.stale_node_index_at(i).node_key.nibble_path().clone())
        .collect()
}

#[test]
fn put_stale_node_index_keeps_key_order() {
    let mut db = Db::new();
    db.put_stale_node_index(index(2, 1, &[3]));
    db.put_stale_node_index(index(2, 1, &[1]));
    db.put_stale_node_index(index(2, 1, &[1, 0]));
    db.put_stale_node_index(index(2, 1, &[0, 5]));
    db.put_stale_node_index(index(2, 1, &[]));
    assert_eq!(
        paths(&db),
        vec![vec![], vec![1], vec![3], vec![0, 5], vec![1, 0]]
    );
    assert!(index(2, 1, &[1]).precedes(&index(2, 1, &[3])));
    assert!(!index(2, 1, &[3]).precedes(&index(2, 1, &[1])));
    assert!(index(2, 1, &[9]).precedes(&index(2, 1, &[0, 0])));
    assert!(index(2, 0, &[9]).precedes(&index(2, 1, &[0])));
    assert!(index(1, 5, &[9]).precedes(&index(2, 0, &[0])));
    assert!(!index(2, 1, &[3]).precedes(&index(2, 1, &[3])));
}
