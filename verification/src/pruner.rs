//! The state Merkle pruner: deletes the nodes of the state Merkle tree that
//! became stale, version by version, in the metadata database and in every
//! shard, and keeps track of how far it got.
use vstd::prelude::*;
use crate::node::{index_views, NodeKeyView, StaleNodeIndex, StaleNodeIndexView, Version};
use crate::state_merkle_db::{StateMerkleDb, StateMerkleDbView};
use crate::schemadb::{
    lemma_seek_position, seek_position, sorted_by_version, Db, DbView, SchemaBatch,
    SchemaBatchView,
};
use crate::batch::{
    batch_next_version, checkpoints, has_version, in_range_end, lemma_batch_removes_within,
    lemma_checkpoints_step, lemma_in_range, lemma_pruned_through_compose,
    lemma_pruned_through_extend, lemma_removed_within_refl, lemma_stale_versions_finite,
    lemma_stale_versions_step, stale_versions_in, lemma_removed_within_trans, lemma_stops_repeat,
    lemma_top_levels_step, lemma_unbounded_batch, no_version_in, prune_batch_view, pruned_shard,
    pruned_through, removed_only_within, selected_indices, shard_through, shard_through_stops,
};

verus! {

/// Bringing every shard from `min` to `tvb` keeps them where the pruner's
/// start `o` got them.
proof fn lemma_shards_step(
    o: StateMerklePrunerView,
    cur: StateMerklePrunerView,
    new: StateMerklePrunerView,
    min: Version,
    tvb: Version,
    started: bool,
    batch_size: int,
)
    requires
        o.wf(),
        cur.wf(),
        cur.db.shards.len() == o.db.shards.len(),
        batch_size >= 0,
        min <= tvb,
        o.shards_at_or_before(min),
        !started ==> cur.db.shards == o.db.shards && cur.shard_progresses == o.shard_progresses,
        started ==> cur.shards_at(min) && o.shards_reached(cur, min),
        new.db.shards == Seq::new(
            cur.db.shards.len(),
            |j: int| pruned_shard(cur.db.shards[j], cur.shard_progresses[j], tvb, batch_size),
        ),
        new.shard_progresses == Seq::new(cur.shard_progresses.len(), |j: int| tvb),
    ensures
        new.shards_at(tvb),
        o.shards_reached(new, tvb),
{
    assert forall|i: int| 0 <= i < o.db.shards.len() implies {
        &&& (o.shard_progresses[i] == tvb ==> new.db.shards[i] == o.db.shards[i])
        &&& (o.shard_progresses[i] != tvb ==> new.db.shards[i].progress == Some(tvb))
        &&& removed_only_within(
            o.db.shards[i],
            new.db.shards[i],
            o.shard_progresses[i] as int,
            tvb as int,
        )
    } by {
        let c = cur.db.shards[i];
        let p = cur.shard_progresses[i];
        assert(o.db.wf());
        assert(cur.db.shards[i].wf());
        if p != tvb {
            lemma_batch_removes_within(c, p as int, tvb, batch_size);
        } else {
            lemma_removed_within_refl(c, p as int, tvb as int);
        }
        assert(removed_only_within(c, new.db.shards[i], p as int, tvb as int));
        if started {
            lemma_removed_within_trans(
                o.db.shards[i],
                c,
                new.db.shards[i],
                o.shard_progresses[i] as int,
                min as int,
                p as int,
                tvb as int,
            );
        }
    }
}

/// Bringing every shard from `min` to `tvb` adds `tvb` to the stops each
/// shard went through since the pruner's start `o`.
proof fn lemma_shards_stops_step(
    o: StateMerklePrunerView,
    cur: StateMerklePrunerView,
    new: StateMerklePrunerView,
    min0: Version,
    min: Version,
    tvb: Version,
    started: bool,
    batch_size: int,
)
    requires
        o.wf(),
        cur.wf(),
        cur.db.shards.len() == o.db.shards.len(),
        min0 <= min <= tvb,
        no_version_in(o.db.metadata.stale_node_indices, min + 1, tvb - 1),
        min == min0 || has_version(o.db.metadata.stale_node_indices, min as int),
        tvb == min || has_version(o.db.metadata.stale_node_indices, tvb as int),
        !started ==> cur.db.shards == o.db.shards && cur.shard_progresses == o.shard_progresses
            && min == min0 && tvb == min0,
        started ==> cur.shards_at(min) && forall|i: int|
            0 <= i < o.db.shards.len() ==> #[trigger] cur.db.shards[i] == shard_through_stops(
                o.db.shards[i],
                o.shard_progresses[i],
                checkpoints(o.db.metadata.stale_node_indices, min0, min),
                batch_size,
            ),
        new.db.shards == Seq::new(
            cur.db.shards.len(),
            |j: int| pruned_shard(cur.db.shards[j], cur.shard_progresses[j], tvb, batch_size),
        ),
    ensures
        forall|i: int|
            0 <= i < o.db.shards.len() ==> #[trigger] new.db.shards[i] == shard_through_stops(
                o.db.shards[i],
                o.shard_progresses[i],
                checkpoints(o.db.metadata.stale_node_indices, min0, tvb),
                batch_size,
            ),
{
    let s0 = o.db.metadata.stale_node_indices;
    assert(o.db.metadata.wf());
    if !started {
        lemma_seek_position(s0, min0 + 1);
        assert(checkpoints(s0, min0, tvb) =~= seq![min0]);
        assert forall|i: int| 0 <= i < o.db.shards.len() implies #[trigger] new.db.shards[i]
            == shard_through_stops(
            o.db.shards[i],
            o.shard_progresses[i],
            checkpoints(s0, min0, tvb),
            batch_size,
        ) by {
            reveal_with_fuel(shard_through_stops, 2);
            assert(seq![min0].drop_last() =~= Seq::<Version>::empty());
            assert(new.db.shards[i] == pruned_shard(
                o.db.shards[i],
                o.shard_progresses[i],
                min0,
                batch_size,
            ));
        }
    } else {
        lemma_checkpoints_step(s0, min0, min, tvb);
        let b = seek_position(s0, min + 1);
        let c = seek_position(s0, tvb + 1);
        let cps = checkpoints(s0, min0, min);
        let more = s0.subrange(b, c).map_values(|e: StaleNodeIndexView| e.stale_since_version);
        assert forall|i: int| 0 <= i < o.db.shards.len() implies #[trigger] new.db.shards[i]
            == shard_through_stops(
            o.db.shards[i],
            o.shard_progresses[i],
            checkpoints(s0, min0, tvb),
            batch_size,
        ) by {
            assert(cur.shard_progresses[i] == min);
            if b < c {
                assert forall|j: int| 0 <= j < more.len() implies more[j] == tvb by {
                    assert(s0[b + j].stale_since_version == tvb);
                }
                lemma_stops_repeat(
                    o.db.shards[i],
                    o.shard_progresses[i],
                    cps,
                    more,
                    tvb,
                    batch_size,
                );
            } else {
                assert(more =~= Seq::<Version>::empty());
                assert(cps + more =~= cps);
            }
        }
    }
}

/// Where the shards are at a stop at `min` of pruning from the progress of
/// `o` (once it `started`): all at `min`, each brought one batch at a time
/// to each stop so far.
#[verifier::opaque]
spec fn shards_invariant(
    o: StateMerklePrunerView,
    cur: StateMerklePrunerView,
    batch_size: int,
    min: Version,
    started: bool,
) -> bool {
    started ==> {
        &&& cur.shards_at(min)
        &&& o.shards_reached(cur, min)
        &&& forall|i: int|
            0 <= i < o.db.shards.len() ==> #[trigger] cur.db.shards[i] == shard_through_stops(
                o.db.shards[i],
                o.shard_progresses[i],
                checkpoints(o.db.metadata.stale_node_indices, o.progress, min),
                batch_size,
            )
    }
}

/// What holds at each stop of pruning from the progress of `o` towards
/// `target`: the pruner `cur` stopped last at `min` (once it `started`),
/// and stops next at `tvb`.
#[verifier::opaque]
spec fn pruning_invariant(
    o: StateMerklePrunerView,
    cur: StateMerklePrunerView,
    target: Version,
    batch_size: int,
    min: Version,
    tvb: Version,
    started: bool,
) -> bool {
    let s0 = o.db.metadata.stale_node_indices;
    let min0 = o.progress;
    &&& o.wf()
    &&& o.prune_can_proceed(target, batch_size)
    &&& batch_size >= 0
    &&& cur.wf()
    &&& cur.db.shards.len() == o.db.shards.len()
    &&& cur.target_version == o.target_version
    &&& cur.progress == min
    &&& min0 <= min <= tvb
    &&& (!started ==> cur == o && min == min0 && tvb == min0)
    &&& (started ==> min <= target && cur.db.metadata == pruned_through(
        o.db.metadata,
        min0 as int,
        min,
    ))
    &&& shards_invariant(o, cur, batch_size, min, started)
    &&& (tvb == min || has_version(cur.db.metadata.stale_node_indices, tvb as int))
    &&& no_version_in(s0, min + 1, tvb - 1)
    &&& (min == min0 || has_version(s0, min as int))
    &&& (batch_size == 0 && o.db.shards.len() > 0 ==> min == min0 && (tvb == min0 || tvb
        > target))
    &&& (started && tvb == min ==> no_version_in(s0, min + 1, u64::MAX as int))
}

/// What is left to prune before the next stop at `tvb`: each entry of the
/// metadata index counts twice, and a stop at a version no entry has counts
/// once.
spec fn pruning_measure(cur: StateMerklePrunerView, tvb: Version) -> int {
    2 * cur.db.metadata.stale_node_indices.len() + if has_version(
        cur.db.metadata.stale_node_indices,
        tvb as int,
    ) {
        0int
    } else {
        1int
    }
}

/// Pruning starts at the progress.
proof fn lemma_pruning_start(o: StateMerklePrunerView, target: Version, batch_size: int)
    requires
        o.wf(),
        o.prune_can_proceed(target, batch_size),
        batch_size >= 0,
    ensures
        pruning_invariant(o, o, target, batch_size, o.progress, o.progress, false),
{
    reveal(pruning_invariant);
    reveal(shards_invariant);
    assert(no_version_in(o.db.metadata.stale_node_indices, o.progress + 1, o.progress - 1));
}

/// What a stop at `tvb` may rely on.
proof fn lemma_pruning_facts(
    o: StateMerklePrunerView,
    cur: StateMerklePrunerView,
    target: Version,
    batch_size: int,
    min: Version,
    tvb: Version,
    started: bool,
)
    requires
        pruning_invariant(o, cur, target, batch_size, min, tvb, started),
        tvb <= target,
    ensures
        cur.wf(),
        min <= tvb,
        cur.shards_at_or_before(tvb),
        batch_size == 0 ==> cur.shards_at(tvb),
{
    reveal(pruning_invariant);
    reveal(shards_invariant);
}

/// Where pruning has stopped at `min` and nothing became stale after it up
/// to the target, it is done.
proof fn lemma_pruning_done(
    o: StateMerklePrunerView,
    cur: StateMerklePrunerView,
    target: Version,
    batch_size: int,
    min: Version,
    tvb: Version,
    started: bool,
)
    requires
        pruning_invariant(o, cur, target, batch_size, min, tvb, started),
        started ==> no_version_in(o.db.metadata.stale_node_indices, min + 1, target as int),
        !started ==> tvb > target,
    ensures
        o.prune_outcome(target, batch_size, cur, min),
        cur.wf(),
{
    reveal(pruning_invariant);
    reveal(shards_invariant);
    if started {
        lemma_pruned_through_extend(o.db.metadata, o.progress as int, min, target);
    }
}

/// Where pruning gets past the target, it is done.
proof fn lemma_pruning_exit(
    o: StateMerklePrunerView,
    cur: StateMerklePrunerView,
    target: Version,
    batch_size: int,
    min: Version,
    tvb: Version,
    started: bool,
)
    requires
        pruning_invariant(o, cur, target, batch_size, min, tvb, started),
        tvb > target,
    ensures
        o.prune_outcome(target, batch_size, cur, min),
        cur.wf(),
        o.progress <= min,
        started ==> min <= target,
        !started ==> min == o.progress,
{
    assert(started ==> no_version_in(o.db.metadata.stale_node_indices, min + 1, target as int))
        by {
        reveal(pruning_invariant);
    }
    assert(o.progress <= min && (started ==> min <= target) && (!started ==> min == o.progress))
        by {
        reveal(pruning_invariant);
    }
    lemma_pruning_done(o, cur, target, batch_size, min, tvb, started);
}

/// Bringing every shard to `tvb` keeps the shards where the stops so far
/// put them.
proof fn lemma_shards_invariant_step(
    o: StateMerklePrunerView,
    mid: StateMerklePrunerView,
    new: StateMerklePrunerView,
    batch_size: int,
    min: Version,
    tvb: Version,
    started: bool,
)
    requires
        o.wf(),
        mid.wf(),
        mid.db.shards.len() == o.db.shards.len(),
        batch_size >= 0,
        o.progress <= min <= tvb,
        o.shards_at_or_before(min),
        no_version_in(o.db.metadata.stale_node_indices, min + 1, tvb - 1),
        min == o.progress || has_version(o.db.metadata.stale_node_indices, min as int),
        tvb == min || has_version(o.db.metadata.stale_node_indices, tvb as int),
        !started ==> mid.db.shards == o.db.shards && mid.shard_progresses == o.shard_progresses
            && min == o.progress && tvb == o.progress,
        shards_invariant(o, mid, batch_size, min, started),
        new.db.shards == Seq::new(
            mid.db.shards.len(),
            |j: int| pruned_shard(mid.db.shards[j], mid.shard_progresses[j], tvb, batch_size),
        ),
        new.shard_progresses == Seq::new(mid.shard_progresses.len(), |j: int| tvb),
    ensures
        shards_invariant(o, new, batch_size, tvb, true),
{
    reveal(shards_invariant);
    lemma_shards_step(o, mid, new, min, tvb, started, batch_size);
    lemma_shards_stops_step(o, mid, new, o.progress, min, tvb, started, batch_size);
}

/// A stop at `tvb`: what the pruner holds after recording `tvb` and pruning
/// the top levels (`mid`) and then the shards (`new`), and where it stops
/// next.
#[verifier::spinoff_prover]
proof fn lemma_pruning_step(
    o: StateMerklePrunerView,
    cur: StateMerklePrunerView,
    mid: StateMerklePrunerView,
    new: StateMerklePrunerView,
    target: Version,
    batch_size: int,
    min: Version,
    tvb: Version,
    started: bool,
    next: Option<Version>,
)
    requires
        pruning_invariant(o, cur, target, batch_size, min, tvb, started),
        tvb <= target,
        mid == (StateMerklePrunerView {
            db: StateMerkleDbView {
                metadata: pruned_through(cur.db.metadata, min as int, tvb),
                ..cur.db
            },
            ..cur.with_progress(tvb)
        }),
        mid.wf(),
        mid.db.metadata.stale_node_indices == cur.db.metadata.stale_node_indices.subrange(
            0,
            seek_position(cur.db.metadata.stale_node_indices, min as int),
        ) + cur.db.metadata.stale_node_indices.subrange(
            in_range_end(cur.db.metadata.stale_node_indices, min as int, tvb as int),
            cur.db.metadata.stale_node_indices.len() as int,
        ),
        next == ({
            let s = cur.db.metadata.stale_node_indices;
            let lo = seek_position(s, min as int);
            let hi = in_range_end(s, min as int, tvb as int);
            if hi < s.len() {
                Some(s[hi].stale_since_version)
            } else if lo < hi {
                Some(s[hi - 1].stale_since_version)
            } else {
                None
            }
        }),
        new == (StateMerklePrunerView {
            db: StateMerkleDbView {
                shards: Seq::new(
                    mid.db.shards.len(),
                    |j: int|
                        pruned_shard(
                            mid.db.shards[j],
                            mid.shard_progresses[j],
                            tvb,
                            batch_size,
                        ),
                ),
                ..mid.db
            },
            shard_progresses: Seq::new(mid.shard_progresses.len(), |j: int| tvb),
            ..mid
        }),
        new.wf(),
    ensures
        next matches Some(v) ==> pruning_invariant(o, new, target, batch_size, tvb, v, true)
            && pruning_measure(new, v) < pruning_measure(cur, tvb),
        next is None ==> pruning_invariant(o, new, target, batch_size, tvb, tvb, true)
            && no_version_in(o.db.metadata.stale_node_indices, tvb + 1, target as int),
        started && tvb == min ==> next is None,
        o.progress <= min <= tvb <= target,
        tvb > min ==> stale_versions_in(o.db.metadata.stale_node_indices, o.progress as int, tvb as int).len()
            == stale_versions_in(o.db.metadata.stale_node_indices, o.progress as int, min as int).len() + 1,
{
    reveal(pruning_invariant);
    let s0 = o.db.metadata.stale_node_indices;
    let min0 = o.progress;
    let s = cur.db.metadata.stale_node_indices;
    if started {
        assert(s == s0.filter(|e: StaleNodeIndexView| !(min0 <= e.stale_since_version <= min)));
    }
    lemma_top_levels_step(s0, s, min0, min, tvb, started, next);
    if started {
        lemma_pruned_through_compose(o.db.metadata, min0 as int, min, tvb);
    }
    assert(o.shards_at_or_before(min0));
    assert(shards_invariant(o, mid, batch_size, min, started)) by {
        reveal(shards_invariant);
    }
    lemma_shards_invariant_step(o, mid, new, batch_size, min, tvb, started);
    lemma_in_range(s, min as int, tvb as int);
    assert(new.db.metadata == pruned_through(o.db.metadata, min0 as int, tvb));
    if tvb > min {
        lemma_stale_versions_step(s0, min0 as int, min as int, tvb as int);
    }
}

/// The name under which the state Merkle pruner reports.
pub const STATE_MERKLE_PRUNER_NAME: &'static str = "state_merkle_pruner";

/// What the pruner holds.
#[verifier::ext_equal]
pub struct StateMerklePrunerView {
    /// The state Merkle database.
    pub db: StateMerkleDbView,
    /// The version the pruner needs to achieve.
    pub target_version: Version,
    /// The overall min readable version.
    pub progress: Version,
    /// The min readable version of each shard.
    pub shard_progresses: Seq<Version>,
}

impl StateMerklePrunerView {
    /// The databases are well formed and there is one progress per shard.
    pub open spec fn wf(self) -> bool {
        &&& self.db.wf()
        &&& self.shard_progresses.len() == self.db.shards.len()
    }

    /// There is pruning left to do.
    pub open spec fn is_pruning_pending(self) -> bool {
        self.target_version > self.progress
    }

    /// The pruner after its target is set.
    pub open spec fn with_target(self, target_version: Version) -> StateMerklePrunerView {
        StateMerklePrunerView { target_version, ..self }
    }

    /// The pruner after its progress is recorded.
    pub open spec fn with_progress(self, progress: Version) -> StateMerklePrunerView {
        StateMerklePrunerView { progress, ..self }
    }

    /// The pruner after the progress of one shard is set.
    pub open spec fn with_shard_progress(self, shard: int, progress: Version) -> StateMerklePrunerView {
        StateMerklePrunerView {
            shard_progresses: self.shard_progresses.update(shard, progress),
            ..self
        }
    }

    /// The pruner after one shard is brought to `target`.
    pub open spec fn with_shard_pruned(
        self,
        shard: int,
        target: Version,
        batch_size: int,
    ) -> StateMerklePrunerView {
        StateMerklePrunerView {
            db: StateMerkleDbView {
                shards: self.db.shards.update(
                    shard,
                    pruned_shard(self.db.shards[shard], self.shard_progresses[shard], target, batch_size),
                ),
                ..self.db
            },
            shard_progresses: self.shard_progresses.update(shard, target),
            ..self
        }
    }

    /// The pruner after every shard is brought to `target` in one batch with
    /// no limit.
    pub open spec fn with_shards_through(self, target: Version) -> StateMerklePrunerView {
        StateMerklePrunerView {
            db: StateMerkleDbView {
                shards: Seq::new(
                    self.db.shards.len(),
                    |j: int| shard_through(self.db.shards[j], self.shard_progresses[j], target),
                ),
                ..self.db
            },
            shard_progresses: Seq::new(self.shard_progresses.len(), |j: int| target),
            ..self
        }
    }

    /// A pruner just opened over `db`: its target is 0, its progress is the
    /// one the metadata database records (0 where none), and every shard
    /// was brought there from the progress it records.
    pub open spec fn opened(db: StateMerkleDbView) -> StateMerklePrunerView {
        let m = db.metadata.progress_or_zero();
        StateMerklePrunerView {
            db: StateMerkleDbView {
                shards: Seq::new(
                    db.shards.len(),
                    |j: int| shard_through(db.shards[j], db.shards[j].progress_or_zero(), m),
                ),
                ..db
            },
            target_version: 0,
            progress: m,
            shard_progresses: Seq::new(db.shards.len(), |j: int| m),
        }
    }

    /// Every shard is at or before `target`.
    pub open spec fn shards_at_or_before(self, target: Version) -> bool {
        forall|i: int| 0 <= i < self.shard_progresses.len() ==> self.shard_progresses[i] <= target
    }

    /// Every shard is at `target`.
    pub open spec fn shards_at(self, target: Version) -> bool {
        forall|i: int| 0 <= i < self.shard_progresses.len() ==> self.shard_progresses[i] == target
    }

    /// Pruning from the progress to `target` in batches of `batch_size`
    /// does not fail: no shard is ahead of the progress, and where batches
    /// are empty and there are shards, no shard has anything to prune.
    pub open spec fn prune_can_proceed(self, target: Version, batch_size: int) -> bool {
        self.progress <= target ==> {
            &&& self.shards_at_or_before(self.progress)
            &&& (batch_size != 0 || self.db.shards.len() == 0 || (self.shards_at(self.progress)
                && no_version_in(
                self.db.metadata.stale_node_indices,
                self.progress + 1,
                target as int,
            )))
        }
    }

    /// `after` and `r` are what pruning from the progress to `target` gives.
    /// Nothing happens where the progress is past the target. Else the
    /// pruner gets to `r`: the last version, up to `target`, at which an
    /// entry of the metadata database became stale, or the progress where
    /// there is none. The metadata database loses exactly the entries stale
    /// since a version from the progress to `target`, with their nodes.
    /// Every shard gets to `r`: it is brought, one batch at a time, to each
    /// stop on the way (the progress, then the version of each entry of the
    /// metadata database stale after it and up to `r`); so a shard that was
    /// there stays as it was, and the others record `r` and lose only
    /// entries stale since a version from their own progress to `r`, and
    /// nodes those name.
    pub open spec fn prune_outcome(
        self,
        target: Version,
        batch_size: int,
        after: StateMerklePrunerView,
        r: Version,
    ) -> bool {
        let s = self.db.metadata.stale_node_indices;
        if self.progress > target {
            after == self && r == self.progress
        } else {
            &&& r == after.progress
            &&& self.progress <= r <= target
            &&& (r == self.progress || has_version(s, r as int))
            &&& no_version_in(s, r + 1, target as int)
            &&& after.target_version == self.target_version
            &&& after.db.metadata == (DbView {
                progress: Some(r),
                ..pruned_through(self.db.metadata, self.progress as int, target)
            })
            &&& after.db.shards.len() == self.db.shards.len()
            &&& after.shard_progresses.len() == self.shard_progresses.len()
            &&& after.shards_at(r)
            &&& self.shards_reached(after, r)
            &&& forall|i: int|
                0 <= i < self.db.shards.len() ==> #[trigger] after.db.shards[i]
                    == shard_through_stops(
                    self.db.shards[i],
                    self.shard_progresses[i],
                    checkpoints(s, self.progress, r),
                    batch_size,
                )
        }
    }

    /// `after` and `r` are what a call of `prune` gives: nothing changes
    /// where nothing is pending, else the pruner prunes towards its target.
    pub open spec fn prune_result(
        self,
        batch_size: int,
        after: StateMerklePrunerView,
        r: Version,
    ) -> bool {
        if self.is_pruning_pending() {
            self.prune_outcome(self.target_version, batch_size, after, r)
        } else {
            after == self && r == self.progress
        }
    }

    /// Each shard of `after` is where this one's got on its way to `r`: a
    /// shard that was there is as it was; the others record `r` and lost
    /// only entries stale since a version from their own progress to `r`,
    /// and nodes those name.
    pub open spec fn shards_reached(self, after: StateMerklePrunerView, r: Version) -> bool {
        forall|i: int|
            0 <= i < self.db.shards.len() ==> {
                &&& (self.shard_progresses[i] == r ==> after.db.shards[i] == self.db.shards[i])
                &&& (self.shard_progresses[i] != r ==> after.db.shards[i].progress == Some(r))
                &&& removed_only_within(
                    self.db.shards[i],
                    after.db.shards[i],
                    self.shard_progresses[i] as int,
                    r as int,
                )
            }
    }
}

/// The state Merkle pruner.
pub struct StateMerklePruner {
    state_merkle_db: StateMerkleDb,
    target_version: Version,
    progress: Version,
    shard_progresses: Vec<Version>,
}

impl View for StateMerklePruner {
    type V = StateMerklePrunerView;

    closed spec fn view(&self) -> StateMerklePrunerView {
        StateMerklePrunerView {
            db: self.state_merkle_db@,
            target_version: self.target_version,
            progress: self.progress,
            shard_progresses: self.shard_progresses@,
        }
    }
}

impl StateMerklePruner {
    /// The state Merkle database.
    pub fn state_merkle_db(&self) -> (r: &StateMerkleDb)
        ensures
            r@ == self@.db,
    {
        &self.state_merkle_db
    }

    /// The min readable version of a shard.
    pub fn get_shard_progress(&self, shard_id: u8) -> (r: Version)
        requires
            self@.wf(),
            shard_id < self@.shard_progresses.len(),
        ensures
            r == self@.shard_progresses[shard_id as int],
    {
        self.shard_progresses[shard_id as usize]
    }

    /// Sets the min readable version of a shard.
    fn update_shard_progress(&mut self, shard_id: u8, progress: Version)
        requires
            old(self)@.wf(),
            shard_id < old(self)@.shard_progresses.len(),
        ensures
            final(self)@ == old(self)@.with_shard_progress(shard_id as int, progress),
    {
        self.shard_progresses.set(shard_id as usize, progress);
    }

    /// Reads the entries of the stale node index that one batch prunes,
    /// from the first one stale since `start_version` on, together with
    /// the version of the last entry read. One entry more than the batch
    /// holds is read, to tell whether the batch is full.
    fn get_stale_node_indices(
        db: &Db,
        start_version: Version,
        target_version: Version,
        batch_size: usize,
    ) -> (r: (Vec<StaleNodeIndex>, Option<Version>))
        requires
            db@.wf(),
        ensures
            index_views(r.0@) == selected_indices(
                db@.stale_node_indices,
                start_version as int,
                target_version as int,
                batch_size as int,
            ),
            r.1 == batch_next_version(
                db@.stale_node_indices,
                start_version as int,
                target_version as int,
                batch_size as int,
            ),
    {
        let ghost s = db@.stale_node_indices;
        proof {
            lemma_in_range(s, start_version as int, target_version as int);
        }
        let lo = db.seek(start_version);
        let n = db.num_stale_node_indices();
        let mut indices: Vec<StaleNodeIndex> = Vec::new();
        let mut next_version: Option<Version> = None;
        let mut pos: usize = lo;
        let mut fetched: usize = 0;
        loop
            invariant_except_break
                pos - lo == fetched,
                fetched <= batch_size,
                next_version == (if pos > lo {
                    Some(s[pos - 1].stale_since_version)
                } else {
                    None::<Version>
                }),
            invariant
                s == db@.stale_node_indices,
                sorted_by_version(s),
                n == s.len(),
                lo == seek_position(s, start_version as int),
                lo <= pos <= n,
                index_views(indices@) == s.subrange(lo as int, pos as int),
                forall|j: int| lo <= j < pos ==> s[j].stale_since_version <= target_version,
            ensures
                lo <= pos <= n,
                index_views(indices@) == s.subrange(lo as int, pos as int),
                forall|j: int| lo <= j < pos ==> s[j].stale_since_version <= target_version,
                (pos == n && pos - lo <= batch_size && next_version == (if pos > lo {
                    Some(s[pos - 1].stale_since_version)
                } else {
                    None::<Version>
                })) || (pos < n && s[pos as int].stale_since_version > target_version && pos - lo
                    <= batch_size && next_version == Some(s[pos as int].stale_since_version)) || (
                pos - lo == batch_size + 1 && next_version == Some(
                    s[pos - 1].stale_since_version,
                )),
            decreases n - pos,
        {
            if pos >= n {
                break;
            }
            let e = db.stale_node_index_at(pos);
            next_version = Some(e.stale_since_version);
            if e.stale_since_version <= target_version {
                let d = e.duplicate();
                let ghost before = indices@;
                indices.push(d);
                proof {
                    assert(pos < s.len());
                    assert(d@ == s[pos as int]);
                    assert(index_views(before).len() == pos - lo);
                    assert(indices@ == before.push(d));
                    assert(index_views(indices@)[before.len() as int] == d@);
                    assert forall|k: int| 0 <= k < indices@.len() implies index_views(
                        indices@,
                    )[k] == s.subrange(lo as int, pos + 1)[k] by {
                        if k < before.len() {
                            assert(index_views(before)[k] == s.subrange(lo as int, pos as int)[k]);
                        }
                    }
                }
                pos = pos + 1;
                assert(index_views(indices@) =~= s.subrange(lo as int, pos as int));
                if fetched == batch_size {
                    break;
                }
                fetched = fetched + 1;
            } else {
                break;
            }
        }
        let ghost hi = in_range_end(s, start_version as int, target_version as int);
        proof {
            if hi < pos {
                assert(s[hi].stale_since_version > target_version);
            }
            if pos < n && s[pos as int].stale_since_version > target_version && pos < hi {
                assert(s[pos as int].stale_since_version <= target_version);
            }
            if pos == n && pos < hi {
                assert(false);
            }
        }
        if indices.len() > batch_size {
            indices.pop();
            assert(index_views(indices@) =~= s.subrange(lo as int, lo + batch_size));
        }
        (indices, next_version)
    }

    /// Adds to `batch` the deletion of the entries one batch prunes, and of
    /// their nodes; returns the version of the last entry read.
    fn prune_state_merkle_shard(
        db: &Db,
        min_readable_version: Version,
        target_version: Version,
        batch_size: usize,
        batch: &mut SchemaBatch,
    ) -> (r: Option<Version>)
        requires
            db@.wf(),
            batch_size != 0,
            target_version >= min_readable_version,
        ensures
            ({
                let run = selected_indices(
                    db@.stale_node_indices,
                    min_readable_version as int,
                    target_version as int,
                    batch_size as int,
                );
                final(batch)@ == (SchemaBatchView {
                    deleted_stale_node_indices: old(batch)@.deleted_stale_node_indices + run,
                    deleted_nodes: old(batch)@.deleted_nodes + run.map_values(
                        |e: StaleNodeIndexView| e.node_key,
                    ),
                    ..old(batch)@
                })
            }),
            r == batch_next_version(
                db@.stale_node_indices,
                min_readable_version as int,
                target_version as int,
                batch_size as int,
            ),
    {
        let (indices, next_version) = Self::get_stale_node_indices(
            db,
            min_readable_version,
            target_version,
            batch_size,
        );
        let ghost run = index_views(indices@);
        let ghost keys = run.map_values(|e: StaleNodeIndexView| e.node_key);
        let mut i: usize = 0;
        while i < indices.len()
            invariant
                i <= indices.len(),
                run == index_views(indices@),
                keys == run.map_values(|e: StaleNodeIndexView| e.node_key),
                batch@ == (SchemaBatchView {
                    deleted_stale_node_indices: old(batch)@.deleted_stale_node_indices
                        + run.subrange(0, i as int),
                    deleted_nodes: old(batch)@.deleted_nodes + keys.subrange(0, i as int),
                    ..old(batch)@
                }),
            decreases indices.len() - i,
        {
            let index = &indices[i];
            batch.delete_node(index.node_key.duplicate());
            batch.delete_stale_node_index(index.duplicate());
            i = i + 1;
            assert(run.subrange(0, i as int) =~= run.subrange(0, i - 1).push(run[i - 1]));
            assert(keys.subrange(0, i as int) =~= keys.subrange(0, i - 1).push(keys[i - 1]));
        }
        assert(run.subrange(0, i as int) =~= run);
        assert(keys.subrange(0, i as int) =~= keys);
        next_version
    }

    /// Prunes the top levels, in the metadata database: every entry stale
    /// since a version from `min_readable_version` to `target_version` goes,
    /// with its node, and `target_version` is recorded there as the
    /// progress. Returns the version of the last entry read.
    fn prune_top_levels(&mut self, min_readable_version: Version, target_version: Version) -> (r:
        Option<Version>)
        requires
            old(self)@.wf(),
            target_version >= min_readable_version,
        ensures
            final(self)@ == (StateMerklePrunerView {
                db: StateMerkleDbView {
                    metadata: pruned_through(
                        old(self)@.db.metadata,
                        min_readable_version as int,
                        target_version,
                    ),
                    ..old(self)@.db
                },
                ..old(self)@
            }),
            final(self)@.wf(),
            final(self)@.db.metadata.stale_node_indices
                == old(self)@.db.metadata.stale_node_indices.subrange(
                0,
                seek_position(
                    old(self)@.db.metadata.stale_node_indices,
                    min_readable_version as int,
                ),
            ) + old(self)@.db.metadata.stale_node_indices.subrange(
                in_range_end(
                    old(self)@.db.metadata.stale_node_indices,
                    min_readable_version as int,
                    target_version as int,
                ),
                old(self)@.db.metadata.stale_node_indices.len() as int,
            ),
            r == batch_next_version(
                old(self)@.db.metadata.stale_node_indices,
                min_readable_version as int,
                target_version as int,
                usize::MAX as int,
            ),
            ({
                let s = old(self)@.db.metadata.stale_node_indices;
                let lo = seek_position(s, min_readable_version as int);
                let hi = in_range_end(s, min_readable_version as int, target_version as int);
                r == if hi < s.len() {
                    Some(s[hi].stale_since_version)
                } else if lo < hi {
                    Some(s[hi - 1].stale_since_version)
                } else {
                    None
                }
            }),
    {
        proof {
            lemma_in_range(
                old(self)@.db.metadata.stale_node_indices,
                min_readable_version as int,
                target_version as int,
            );
        }
        let mut batch = SchemaBatch::new();
        let next_version = Self::prune_state_merkle_shard(
            self.state_merkle_db.metadata_db(),
            min_readable_version,
            target_version,
            usize::MAX,
            &mut batch,
        );
        batch.put_progress(target_version);
        let ghost written = batch@;
        self.state_merkle_db.write_metadata_schemas(batch);
        proof {
            let m = old(self)@.db.metadata;
            assert(written =~= prune_batch_view(
                m.stale_node_indices,
                min_readable_version as int,
                target_version,
                usize::MAX as int,
            ));
            lemma_unbounded_batch(m, min_readable_version as int, target_version, usize::MAX as int);
            assert(self@ =~= (StateMerklePrunerView {
                db: StateMerkleDbView {
                    metadata: pruned_through(m, min_readable_version as int, target_version),
                    ..old(self)@.db
                },
                ..old(self)@
            }));
        }
        next_version
    }

    /// Brings one shard to `target_version`: where it is behind, records
    /// the new progress and prunes one batch of it.
    fn prune_single_shard(&mut self, shard_id: u8, target_version: Version, batch_size: usize)
        requires
            old(self)@.wf(),
            shard_id < old(self)@.shard_progresses.len(),
            old(self)@.shard_progresses[shard_id as int] <= target_version,
            old(self)@.shard_progresses[shard_id as int] != target_version ==> batch_size != 0,
        ensures
            final(self)@ == old(self)@.with_shard_pruned(
                shard_id as int,
                target_version,
                batch_size as int,
            ),
            final(self)@.wf(),
    {
        let shard_min_readable_version = self.get_shard_progress(shard_id);
        if shard_min_readable_version != target_version {
            self.update_shard_progress(shard_id, target_version);
            let mut batch = SchemaBatch::new();
            Self::prune_state_merkle_shard(
                self.state_merkle_db.db_shard(shard_id),
                shard_min_readable_version,
                target_version,
                batch_size,
                &mut batch,
            );
            batch.put_progress(target_version);
            let ghost written = batch@;
            self.state_merkle_db.write_shard_schemas(shard_id, batch);
            proof {
                let d = old(self)@.db.shards[shard_id as int];
                assert(written =~= prune_batch_view(
                    d.stale_node_indices,
                    shard_min_readable_version as int,
                    target_version,
                    batch_size as int,
                ));
            }
            assert(self@ =~= old(self)@.with_shard_pruned(
                shard_id as int,
                target_version,
                batch_size as int,
            ));
        } else {
            assert(old(self)@.shard_progresses.update(shard_id as int, target_version)
                =~= old(self)@.shard_progresses);
            assert(old(self)@.db.shards.update(
                shard_id as int,
                old(self)@.db.shards[shard_id as int],
            ) =~= old(self)@.db.shards);
            assert(self@ =~= old(self)@.with_shard_pruned(
                shard_id as int,
                target_version,
                batch_size as int,
            ));
        }
    }

    /// Brings every shard to `target_version`, one after another.
    fn prune_shards(&mut self, target_version: Version, batch_size: usize)
        requires
            old(self)@.wf(),
            old(self)@.shards_at_or_before(target_version),
            batch_size != 0 || old(self)@.shards_at(target_version),
        ensures
            final(self)@ == (StateMerklePrunerView {
                db: StateMerkleDbView {
                    shards: Seq::new(
                        old(self)@.db.shards.len(),
                        |j: int|
                            pruned_shard(
                                old(self)@.db.shards[j],
                                old(self)@.shard_progresses[j],
                                target_version,
                                batch_size as int,
                            ),
                    ),
                    ..old(self)@.db
                },
                shard_progresses: Seq::new(old(self)@.shard_progresses.len(), |j: int| target_version),
                ..old(self)@
            }),
            final(self)@.wf(),
    {
        let num_shards = self.state_merkle_db.num_shards();
        let ghost o = old(self)@;
        let mut shard_id: u8 = 0;
        while shard_id < num_shards
            invariant
                num_shards == o.db.shards.len(),
                shard_id <= num_shards,
                o.wf(),
                o.shards_at_or_before(target_version),
                batch_size != 0 || o.shards_at(target_version),
                self@.wf(),
                self@ == (StateMerklePrunerView {
                    db: StateMerkleDbView {
                        shards: Seq::new(
                            o.db.shards.len(),
                            |j: int|
                                if j < shard_id {
                                    pruned_shard(
                                        o.db.shards[j],
                                        o.shard_progresses[j],
                                        target_version,
                                        batch_size as int,
                                    )
                                } else {
                                    o.db.shards[j]
                                },
                        ),
                        ..o.db
                    },
                    shard_progresses: Seq::new(
                        o.shard_progresses.len(),
                        |j: int|
                            if j < shard_id {
                                target_version
                            } else {
                                o.shard_progresses[j]
                            },
                    ),
                    ..o
                }),
            decreases num_shards - shard_id,
        {
            self.prune_single_shard(shard_id, target_version, batch_size);
            shard_id = shard_id + 1;
            assert(self@.db.shards =~= Seq::new(
                o.db.shards.len(),
                |j: int|
                    if j < shard_id {
                        pruned_shard(
                            o.db.shards[j],
                            o.shard_progresses[j],
                            target_version,
                            batch_size as int,
                        )
                    } else {
                        o.db.shards[j]
                    },
            ));
            assert(self@.shard_progresses =~= Seq::new(
                o.shard_progresses.len(),
                |j: int|
                    if j < shard_id {
                        target_version
                    } else {
                        o.shard_progresses[j]
                    },
            ));
        }
        assert(self@ =~= (StateMerklePrunerView {
            db: StateMerkleDbView {
                shards: Seq::new(
                    o.db.shards.len(),
                    |j: int|
                        pruned_shard(
                            o.db.shards[j],
                            o.shard_progresses[j],
                            target_version,
                            batch_size as int,
                        ),
                ),
                ..o.db
            },
            shard_progresses: Seq::new(o.shard_progresses.len(), |j: int| target_version),
            ..o
        }));
    }

    /// The name under which the pruner reports.
    pub fn name(&self) -> (r: &'static str)
        ensures
            r == STATE_MERKLE_PRUNER_NAME,
    {
        STATE_MERKLE_PRUNER_NAME
    }

    /// Adds to `batch` the recording of `version` as the min readable
    /// version.
    pub fn save_min_readable_version(&self, version: Version, batch: &mut SchemaBatch)
        ensures
            final(batch)@ == (SchemaBatchView { progress: Some(version), ..old(batch)@ }),
    {
        batch.put_progress(version);
    }

    /// The overall min readable version.
    pub fn min_readable_version(&self) -> (r: Version)
        ensures
            r == self@.progress,
    {
        self.progress
    }

    /// Sets the version the pruner needs to achieve.
    pub fn set_target_version(&mut self, target_version: Version)
        ensures
            final(self)@ == old(self)@.with_target(target_version),
    {
        self.target_version = target_version;
    }

    /// The version the pruner needs to achieve.
    pub fn target_version(&self) -> (r: Version)
        ensures
            r == self@.target_version,
    {
        self.target_version
    }

    /// Records the overall min readable version.
    pub fn record_progress(&mut self, min_readable_version: Version)
        ensures
            final(self)@ == old(self)@.with_progress(min_readable_version),
    {
        self.progress = min_readable_version;
    }

    /// Tells whether the pruner is behind its target.
    pub fn is_pruning_pending(&self) -> (r: bool)
        ensures
            r == self@.is_pruning_pending(),
    {
        self.target_version() > self.progress
    }

    /// Updates the minimal readable version kept by the pruner; for tests.
    pub fn testonly_update_min_version(&mut self, version: Version)
        ensures
            final(self)@ == old(self)@.with_progress(version),
    {
        self.record_progress(version);
    }

    /// Prunes from `min_readable_version` to `target_version`, stopping at
    /// each version at which an entry of the metadata database became
    /// stale: records it as the progress, prunes the top levels up to it
    /// and brings every shard to it by one batch. Returns the version it
    /// got to and, as a ghost value, the versions it recorded as the
    /// progress, one per stop: they never decrease, lie between the start
    /// and the version it got to, end with the latter, and are at most two
    /// more than the versions after the start and up to the target at which
    /// an entry of the metadata database became stale.
    fn prune_state_merkle(
        &mut self,
        min_readable_version: Version,
        target_version: Version,
        batch_size: usize,
    ) -> (r: (Version, Ghost<Seq<Version>>))
        requires
            old(self)@.wf(),
            min_readable_version == old(self)@.progress,
            old(self)@.prune_can_proceed(target_version, batch_size as int),
        ensures
            old(self)@.prune_outcome(target_version, batch_size as int, final(self)@, r.0),
            final(self)@.wf(),
            old(self)@.progress <= target_version ==> r.1@.len() <= 2 + stale_versions_in(
                old(self)@.db.metadata.stale_node_indices,
                old(self)@.progress as int,
                target_version as int,
            ).len(),
            old(self)@.progress > target_version ==> r.1@.len() == 0,
            forall|i: int, j: int| 0 <= i <= j < r.1@.len() ==> #[trigger] r.1@[i] <= #[trigger] r.1@[j],
            forall|i: int| 0 <= i < r.1@.len() ==> old(self)@.progress <= #[trigger] r.1@[i] <= r.0,
            r.1@.len() > 0 ==> r.1@.last() == r.0,
    {
        let ghost o = old(self)@;
        let ghost s0 = o.db.metadata.stale_node_indices;
        let ghost min0 = min_readable_version as int;
        let ghost mut started = false;
        let ghost mut recorded: Seq<Version> = Seq::empty();
        let mut min_readable_version = min_readable_version;
        let mut target_version_for_this_batch = min_readable_version;
        proof {
            lemma_pruning_start(o, target_version, batch_size as int);
        }
        loop
            invariant_except_break
                pruning_invariant(
                    o,
                    self@,
                    target_version,
                    batch_size as int,
                    min_readable_version,
                    target_version_for_this_batch,
                    started,
                ),
                s0 == o.db.metadata.stale_node_indices,
                min0 == o.progress,
                !started ==> recorded.len() == 0,
                started ==> recorded.len() <= 1 + stale_versions_in(
                    s0,
                    min0,
                    min_readable_version as int,
                ).len(),
                started ==> recorded.len() > 0 && recorded.last() == min_readable_version,
                forall|i: int, j: int|
                    0 <= i <= j < recorded.len() ==> #[trigger] recorded[i] <= #[trigger] recorded[j],
                forall|i: int|
                    0 <= i < recorded.len() ==> min0 <= #[trigger] recorded[i]
                        <= min_readable_version,
            ensures
                o.prune_outcome(target_version, batch_size as int, self@, min_readable_version),
                self@.wf(),
                min0 <= target_version ==> recorded.len() <= 2 + stale_versions_in(
                    s0,
                    min0,
                    target_version as int,
                ).len(),
                min0 > target_version ==> recorded.len() == 0,
                forall|i: int, j: int|
                    0 <= i <= j < recorded.len() ==> #[trigger] recorded[i] <= #[trigger] recorded[j],
                forall|i: int|
                    0 <= i < recorded.len() ==> min0 <= #[trigger] recorded[i]
                        <= min_readable_version,
                recorded.len() > 0 ==> recorded.last() == min_readable_version,
            decreases pruning_measure(self@, target_version_for_this_batch),
        {
            if target_version_for_this_batch > target_version {
                proof {
                    lemma_pruning_exit(
                        o,
                        self@,
                        target_version,
                        batch_size as int,
                        min_readable_version,
                        target_version_for_this_batch,
                        started,
                    );
                    if started {
                        lemma_stale_versions_finite(
                            s0,
                            min0,
                            min_readable_version as int,
                            target_version as int,
                        );
                    }
                }
                break ;
            }
            let ghost cur = self@;
            let ghost min = min_readable_version;
            let ghost tvb = target_version_for_this_batch;
            proof {
                lemma_pruning_facts(o, cur, target_version, batch_size as int, min, tvb, started);
            }
            self.record_progress(target_version_for_this_batch);
            let next_version = self.prune_top_levels(
                min_readable_version,
                target_version_for_this_batch,
            );
            let ghost mid = self@;
            self.prune_shards(target_version_for_this_batch, batch_size);
            proof {
                lemma_pruning_step(
                    o,
                    cur,
                    mid,
                    self@,
                    target_version,
                    batch_size as int,
                    min,
                    tvb,
                    started,
                    next_version,
                );
                lemma_stale_versions_finite(s0, min0, min as int, tvb as int);
                lemma_stale_versions_finite(s0, min0, tvb as int, target_version as int);
                recorded = recorded.push(tvb);
                started = true;
            }
            min_readable_version = target_version_for_this_batch;
            match next_version {
                Some(next_version) => {
                    target_version_for_this_batch = next_version;
                },
                None => {
                    proof {
                        lemma_pruning_done(
                            o,
                            self@,
                            target_version,
                            batch_size as int,
                            min_readable_version,
                            target_version_for_this_batch,
                            started,
                        );
                    }
                    break ;
                },
            }
        }
        (min_readable_version, Ghost(recorded))
    }

    /// Prunes towards the target version, in batches of `batch_size` per
    /// shard, and returns the min readable version it got to; where nothing
    /// is pending, changes nothing and returns the min readable version.
    pub fn prune(&mut self, batch_size: usize) -> (r: Version)
        requires
            old(self)@.wf(),
            old(self)@.is_pruning_pending() ==> old(self)@.prune_can_proceed(
                old(self)@.target_version,
                batch_size as int,
            ),
        ensures
            final(self)@.wf(),
            old(self)@.prune_result(batch_size as int, final(self)@, r),
    {
        if !self.is_pruning_pending() {
            return self.min_readable_version();
        }
        let min_readable_version = self.min_readable_version();
        let target_version = self.target_version();
        let (r, _) = self.prune_state_merkle(min_readable_version, target_version, batch_size);
        r
    }

    /// The progress a database records, or 0 where it records none.
    fn get_progress(db: &Db) -> (r: Version)
        ensures
            r == db@.progress_or_zero(),
    {
        match db.get_progress() {
            Some(v) => v,
            None => 0,
        }
    }

    /// Brings every shard to `min_readable_version`, each in one batch.
    fn finish_pending_pruning(&mut self, min_readable_version: Version)
        requires
            old(self)@.wf(),
            old(self)@.shards_at_or_before(min_readable_version),
        ensures
            final(self)@ == old(self)@.with_shards_through(min_readable_version),
            final(self)@.wf(),
    {
        self.prune_shards(min_readable_version, usize::MAX);
        proof {
            let o = old(self)@;
            assert forall|j: int| 0 <= j < o.db.shards.len() implies pruned_shard(
                o.db.shards[j],
                o.shard_progresses[j],
                min_readable_version,
                usize::MAX as int,
            ) == shard_through(o.db.shards[j], o.shard_progresses[j], min_readable_version) by {
                assert(o.db.shards[j].wf());
                if o.shard_progresses[j] != min_readable_version {
                    lemma_unbounded_batch(
                        o.db.shards[j],
                        o.shard_progresses[j] as int,
                        min_readable_version,
                        usize::MAX as int,
                    );
                }
            }
            assert(self@.db.shards =~= o.with_shards_through(min_readable_version).db.shards);
        }
    }

    /// Reads the min readable version the metadata database records and
    /// finishes the pruning of the shards up to it.
    pub fn initialize_min_readable_version(&mut self) -> (r: Version)
        requires
            old(self)@.wf(),
            old(self)@.shards_at_or_before(old(self)@.db.metadata.progress_or_zero()),
        ensures
            r == old(self)@.db.metadata.progress_or_zero(),
            final(self)@ == old(self)@.with_shards_through(r),
            final(self)@.wf(),
    {
        let min_readable_version = Self::get_progress(self.state_merkle_db.metadata_db());
        self.finish_pending_pruning(min_readable_version);
        min_readable_version
    }

    /// Finishes pending pruning and records the min readable version.
    fn initialize(&mut self)
        requires
            old(self)@.wf(),
            old(self)@.shards_at_or_before(old(self)@.db.metadata.progress_or_zero()),
        ensures
            final(self)@ == old(self)@.with_shards_through(
                old(self)@.db.metadata.progress_or_zero(),
            ).with_progress(old(self)@.db.metadata.progress_or_zero()),
            final(self)@.wf(),
    {
        let min_readable_version = self.initialize_min_readable_version();
        self.record_progress(min_readable_version);
    }

    /// A pruner over a state Merkle database: reads the progress of every
    /// shard and of the metadata database, and brings every shard to the
    /// latter.
    pub fn new(state_merkle_db: StateMerkleDb) -> (r: StateMerklePruner)
        requires
            state_merkle_db@.wf(),
            forall|i: int|
                0 <= i < state_merkle_db@.shards.len() ==> (
                #[trigger] state_merkle_db@.shards[i]).progress_or_zero()
                    <= state_merkle_db@.metadata.progress_or_zero(),
        ensures
            r@.wf(),
            r@ == StateMerklePrunerView::opened(state_merkle_db@),
    {
        let num_shards = state_merkle_db.num_shards();
        let mut shard_progresses: Vec<Version> = Vec::new();
        let mut shard_id: u8 = 0;
        while shard_id < num_shards
            invariant
                num_shards == state_merkle_db@.shards.len(),
                shard_id <= num_shards,
                shard_progresses@ == Seq::new(
                    shard_id as nat,
                    |i: int| state_merkle_db@.shards[i].progress_or_zero(),
                ),
            decreases num_shards - shard_id,
        {
            let db_shard = state_merkle_db.db_shard(shard_id);
            shard_progresses.push(Self::get_progress(db_shard));
            shard_id = shard_id + 1;
            assert(shard_progresses@ =~= Seq::new(
                shard_id as nat,
                |i: int| state_merkle_db@.shards[i].progress_or_zero(),
            ));
        }
        let mut pruner = StateMerklePruner {
            state_merkle_db,
            target_version: 0,
            progress: 0,
            shard_progresses,
        };
        pruner.initialize();
        assert(pruner@ =~= StateMerklePrunerView::opened(pruner.state_merkle_db@));
        pruner
    }

    /// Prunes the genesis state and saves the alterations to `batch`: the
    /// genesis version is 0, and what the state no longer needs from version
    /// 1 on goes, that is every entry of the metadata index stale since
    /// version 0 or 1, with the node it names.
    pub fn prune_genesis(state_merkle_db: &StateMerkleDb, batch: &mut SchemaBatch)
        requires
            state_merkle_db@.wf(),
        ensures
            ({
                let run = selected_indices(
                    state_merkle_db@.metadata.stale_node_indices,
                    0,
                    1,
                    usize::MAX as int,
                );
                final(batch)@ == (SchemaBatchView {
                    deleted_stale_node_indices: old(batch)@.deleted_stale_node_indices + run,
                    deleted_nodes: old(batch)@.deleted_nodes + run.map_values(
                        |e: StaleNodeIndexView| e.node_key,
                    ),
                    ..old(batch)@
                })
            }),
    {
        Self::prune_state_merkle_shard(state_merkle_db.metadata_db(), 0, 1, usize::MAX, batch);
    }
}

} // verus!
