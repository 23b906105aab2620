//! The database of the state Merkle tree: a metadata database that holds the
//! top levels of the tree, and the shards that hold the rest.
use vstd::prelude::*;
use crate::schemadb::{Db, DbView, SchemaBatch};

verus! {

/// What the state Merkle database holds.
#[verifier::ext_equal]
pub struct StateMerkleDbView {
    pub metadata: DbView,
    pub shards: Seq<DbView>,
}

impl StateMerkleDbView {
    /// Every database is well formed and a shard is numbered by a `u8`.
    pub open spec fn wf(self) -> bool {
        &&& self.metadata.wf()
        &&& self.shards.len() <= 255
        &&& forall|i: int| 0 <= i < self.shards.len() ==> (#[trigger] self.shards[i]).wf()
    }
}

/// The state Merkle database.
pub struct StateMerkleDb {
    metadata_db: Db,
    shards: Vec<Db>,
}

impl View for StateMerkleDb {
    type V = StateMerkleDbView;

    closed spec fn view(&self) -> StateMerkleDbView {
        StateMerkleDbView {
            metadata: self.metadata_db@,
            shards: self.shards@.map_values(|d: Db| d@),
        }
    }
}

impl StateMerkleDb {
    /// A state Merkle database from its metadata database and its shards.
    pub fn new(metadata_db: Db, shards: Vec<Db>) -> (r: StateMerkleDb)
        requires
            metadata_db@.wf(),
            shards.len() <= 255,
            forall|i: int| 0 <= i < shards.len() ==> (#[trigger] shards@[i])@.wf(),
        ensures
            r@.metadata == metadata_db@,
            r@.shards == shards@.map_values(|d: Db| d@),
            r@.wf(),
    {
        StateMerkleDb { metadata_db, shards }
    }

    /// The number of shards.
    pub fn num_shards(&self) -> (r: u8)
        requires
            self@.wf(),
        ensures
            r == self@.shards.len(),
    {
        self.shards.len() as u8
    }

    /// The metadata database.
    pub fn metadata_db(&self) -> (r: &Db)
        ensures
            r@ == self@.metadata,
    {
        &self.metadata_db
    }

    /// A shard.
    pub fn db_shard(&self, shard_id: u8) -> (r: &Db)
        requires
            shard_id < self@.shards.len(),
        ensures
            r@ == self@.shards[shard_id as int],
    {
        &self.shards[shard_id as usize]
    }

    /// Writes a batch to the metadata database.
    pub fn write_metadata_schemas(&mut self, batch: SchemaBatch)
        requires
            old(self)@.wf(),
        ensures
            final(self)@ == (StateMerkleDbView {
                metadata: old(self)@.metadata.apply(batch@),
                ..old(self)@
            }),
            final(self)@.wf(),
    {
        self.metadata_db.write_schemas(batch);
        assert(self@ =~= (StateMerkleDbView {
            metadata: old(self)@.metadata.apply(batch@),
            ..old(self)@
        }));
    }

    /// Writes a batch to a shard.
    pub fn write_shard_schemas(&mut self, shard_id: u8, batch: SchemaBatch)
        requires
            old(self)@.wf(),
            shard_id < old(self)@.shards.len(),
        ensures
            final(self)@ == (StateMerkleDbView {
                shards: old(self)@.shards.update(
                    shard_id as int,
                    old(self)@.shards[shard_id as int].apply(batch@),
                ),
                ..old(self)@
            }),
            final(self)@.wf(),
    {
        let i = shard_id as usize;
        let mut shard = self.shards.remove(i);
        assert(shard@ == old(self)@.shards[i as int]);
        shard.write_schemas(batch);
        self.shards.insert(i, shard);
        assert(self@.shards =~= old(self)@.shards.update(
            i as int,
            old(self)@.shards[i as int].apply(batch@),
        ));
        assert(self@ =~= (StateMerkleDbView {
            shards: old(self)@.shards.update(i as int, old(self)@.shards[i as int].apply(batch@)),
            ..old(self)@
        }));
    }
}

} // verus!
