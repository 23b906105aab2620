# aptosdb

Pruning of the state Merkle tree of a ledger database, verified with Verus.

The pruner deletes the nodes of the tree that became stale, in the metadata
database (the top levels of the tree) and in every shard, stopping at each
version at which something became stale until it reaches its target, and
keeps track of the min readable version overall and per shard.

Layout of `src/`:

- `node.rs`: node keys and entries of the stale node index, with their views.
- `schemadb.rs`: a database as the pruner sees it (stale node index, nodes,
  progress entry), batches of writes, and lemmas on sorted indexes and
  filtering.
- `state_merkle_db.rs`: the metadata database and its shards.
- `batch.rs`: which entries one batch of pruning selects, and what a
  database holds after pruning, with their lemmas.
- `pruner.rs`: the state Merkle pruner and its contracts.
- `resource.rs`: resources that transactions write.
- `laws.rs`: properties that span several calls, proved.

The tests under `tests/` run the library on concrete databases.
