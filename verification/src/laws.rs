//! What holds of the pruner and its databases across calls.
use vstd::prelude::*;
use crate::node::{index_lt, lemma_index_lt, NodeKeyView, StaleNodeIndexView, Version};
use crate::batch::{
    batch_next_version, has_version, in_range_end, lemma_in_range, no_version_in,
    pruned_through, removed_only_within, selected_end, selected_indices,
};
use crate::pruner::StateMerklePrunerView;
use crate::schemadb::{
    key_position, lemma_filter_cuts_run, lemma_filter_keeps_all, lemma_filter_keeps_run,
    lemma_insert_at_key_position, lemma_key_position, seek_position, sorted_by_version, DbView,
    SchemaBatchView,
};
use crate::state_merkle_db::StateMerkleDbView;

verus! {

/// Reading the target after setting it gives what was set, and nothing else
/// changes.
pub proof fn law_target_read_after_set(p: StateMerklePrunerView, v: Version)
    ensures
        p.with_target(v).target_version == v,
        p.with_target(v).progress == p.progress,
        p.with_target(v).db == p.db,
        p.with_target(v).shard_progresses == p.shard_progresses,
        p.with_target(v).is_pruning_pending() == (v > p.progress),
{
}

/// Reading the min readable version after recording it gives what was
/// recorded, and nothing else changes.
pub proof fn law_progress_read_after_record(p: StateMerklePrunerView, v: Version)
    ensures
        p.with_progress(v).progress == v,
        p.with_progress(v).target_version == p.target_version,
        p.with_progress(v).db == p.db,
        p.with_progress(v).shard_progresses == p.shard_progresses,
        p.with_progress(v).is_pruning_pending() == (p.target_version > v),
{
}

/// A pruner just opened has nothing pending, and every shard is at its
/// min readable version.
pub proof fn law_opened_is_settled(db: StateMerkleDbView)
    ensures
        !StateMerklePrunerView::opened(db).is_pruning_pending(),
        StateMerklePrunerView::opened(db).shards_at(StateMerklePrunerView::opened(db).progress),
        StateMerklePrunerView::opened(db).shard_progresses.len() == db.shards.len(),
        StateMerklePrunerView::opened(db).db.metadata == db.metadata,
{
}

/// Pruning deletes from the metadata database exactly the entries stale
/// since a version from the min readable version to the target, and exactly
/// the nodes they name; it neither goes back nor past the target.
pub proof fn law_prune_top_levels_exact(
    batch_size: int,
    p0: StateMerklePrunerView,
    p1: StateMerklePrunerView,
    r: Version,
)
    requires
        p0.prune_result(batch_size, p1, r),
        p0.is_pruning_pending(),
    ensures
        p0.progress <= r <= p0.target_version,
        r == p1.progress,
        forall|e: StaleNodeIndexView|
            #[trigger] p1.db.metadata.stale_node_indices.contains(e) <==> (
            p0.db.metadata.stale_node_indices.contains(e) && !(p0.progress
                <= e.stale_since_version <= p0.target_version)),
        forall|k: NodeKeyView|
            #[trigger] p1.db.metadata.nodes.contains(k) <==> (p0.db.metadata.nodes.contains(k)
                && !(exists|e: StaleNodeIndexView|
                #[trigger] p0.db.metadata.stale_node_indices.contains(e) && e.node_key == k
                    && p0.progress <= e.stale_since_version <= p0.target_version)),
{
    let s0 = p0.db.metadata.stale_node_indices;
    let n0 = p0.db.metadata.nodes;
    let lo = p0.progress as int;
    let t = p0.target_version;
    let pe = |e: StaleNodeIndexView| !(lo <= e.stale_since_version <= t);
    let pk = |k: NodeKeyView|
        !(exists|i: int|
            0 <= i < s0.len() && lo <= #[trigger] s0[i].stale_since_version <= t
                && s0[i].node_key == k);
    assert(p1.db.metadata.stale_node_indices == s0.filter(pe));
    assert(p1.db.metadata.nodes == n0.filter(pk));
    assert forall|e: StaleNodeIndexView|
        #[trigger] p1.db.metadata.stale_node_indices.contains(e) <==> (s0.contains(e) && pe(e)) by {
        if s0.filter(pe).contains(e) {
            s0.lemma_filter_contains_rev(pe, e);
            let j = choose|j: int| 0 <= j < s0.filter(pe).len() && s0.filter(pe)[j] == e;
            s0.lemma_filter_pred(pe, j);
        }
        if s0.contains(e) && pe(e) {
            let i = choose|i: int| 0 <= i < s0.len() && s0[i] == e;
            s0.lemma_filter_contains(pe, i);
        }
    }
    assert forall|k: NodeKeyView|
        #[trigger] p1.db.metadata.nodes.contains(k) <==> (n0.contains(k) && !(exists|
            e: StaleNodeIndexView,
        | #[trigger] s0.contains(e) && e.node_key == k && lo <= e.stale_since_version <= t)) by {
        if n0.filter(pk).contains(k) {
            n0.lemma_filter_contains_rev(pk, k);
            let j = choose|j: int| 0 <= j < n0.filter(pk).len() && n0.filter(pk)[j] == k;
            n0.lemma_filter_pred(pk, j);
            if exists|e: StaleNodeIndexView|
                #[trigger] s0.contains(e) && e.node_key == k && lo <= e.stale_since_version <= t {
                let e = choose|e: StaleNodeIndexView|
                    #[trigger] s0.contains(e) && e.node_key == k && lo <= e.stale_since_version
                        <= t;
                let i = choose|i: int| 0 <= i < s0.len() && s0[i] == e;
                assert(lo <= s0[i].stale_since_version <= t && s0[i].node_key == k);
            }
        }
        if n0.contains(k) && !(exists|e: StaleNodeIndexView|
            #[trigger] s0.contains(e) && e.node_key == k && lo <= e.stale_since_version <= t) {
            if !pk(k) {
                let i = choose|i: int|
                    0 <= i < s0.len() && lo <= #[trigger] s0[i].stale_since_version <= t
                        && s0[i].node_key == k;
                assert(s0.contains(s0[i]));
            }
            let i = choose|i: int| 0 <= i < n0.len() && n0[i] == k;
            n0.lemma_filter_contains(pk, i);
        }
    }
}

/// Pruning removes no entry, in the metadata database or in a shard, that
/// became stale after the version the pruner gets to, and adds nothing.
pub proof fn law_prune_keeps_newer_entries(
    batch_size: int,
    p0: StateMerklePrunerView,
    p1: StateMerklePrunerView,
    r: Version,
)
    requires
        p0.prune_result(batch_size, p1, r),
    ensures
        forall|e: StaleNodeIndexView|
            #[trigger] p0.db.metadata.stale_node_indices.contains(e) && e.stale_since_version > r
                ==> p1.db.metadata.stale_node_indices.contains(e),
        forall|i: int, e: StaleNodeIndexView|
            0 <= i < p0.db.shards.len() && #[trigger] p0.db.shards[i].stale_node_indices.contains(e)
                && e.stale_since_version > r ==> p1.db.shards[i].stale_node_indices.contains(e),
        forall|i: int, e: StaleNodeIndexView|
            0 <= i < p0.db.shards.len() && #[trigger] p1.db.shards[i].stale_node_indices.contains(e)
                ==> p0.db.shards[i].stale_node_indices.contains(e),
{
    reveal(removed_only_within);
    if p0.is_pruning_pending() {
        law_prune_top_levels_exact(batch_size, p0, p1, r);
        let s0 = p0.db.metadata.stale_node_indices;
        assert forall|e: StaleNodeIndexView|
            #[trigger] s0.contains(e) && e.stale_since_version > r implies p1.db.metadata.stale_node_indices.contains(
            e,
        ) by {
            if e.stale_since_version <= p0.target_version {
                let i = choose|i: int| 0 <= i < s0.len() && s0[i] == e;
                assert(!(r + 1 <= s0[i].stale_since_version <= p0.target_version));
            }
        }
        assert forall|i: int, e: StaleNodeIndexView|
            0 <= i < p0.db.shards.len() && #[trigger] p0.db.shards[i].stale_node_indices.contains(e)
                && e.stale_since_version > r implies p1.db.shards[i].stale_node_indices.contains(e) by {
            assert(removed_only_within(
                p0.db.shards[i],
                p1.db.shards[i],
                p0.shard_progresses[i] as int,
                r as int,
            ));
        }
        assert forall|i: int, e: StaleNodeIndexView|
            0 <= i < p0.db.shards.len() && #[trigger] p1.db.shards[i].stale_node_indices.contains(e)
            implies p0.db.shards[i].stale_node_indices.contains(e) by {
            assert(removed_only_within(
                p0.db.shards[i],
                p1.db.shards[i],
                p0.shard_progresses[i] as int,
                r as int,
            ));
        }
    }
}

/// Pruning again, towards the same target, changes nothing and gets to the
/// same version.
pub proof fn law_prune_idempotent(
    batch_size: int,
    p0: StateMerklePrunerView,
    p1: StateMerklePrunerView,
    r1: Version,
    p2: StateMerklePrunerView,
    r2: Version,
)
    requires
        p0.wf(),
        p0.prune_result(batch_size, p1, r1),
        p1.prune_result(batch_size, p2, r2),
    ensures
        p2 == p1,
        r2 == r1,
{
    if p0.is_pruning_pending() && p1.is_pruning_pending() {
        law_prune_top_levels_exact(batch_size, p0, p1, r1);
        let s1 = p1.db.metadata.stale_node_indices;
        let t = p0.target_version;
        assert(p1.target_version == t);
        assert(p1.progress == r1);
        // Nothing is left in the metadata index from the old progress to
        // the target, so the second run finds nothing to prune there.
        assert(no_version_in(s1, p0.progress as int, t as int)) by {
            assert forall|i: int| 0 <= i < s1.len() implies !(p0.progress
                <= #[trigger] s1[i].stale_since_version <= t) by {
                assert(s1.contains(s1[i]));
            }
        }
        if r2 != r1 {
            assert(has_version(s1, r2 as int));
            let i = choose|i: int| 0 <= i < s1.len() && #[trigger] s1[i].stale_since_version == r2;
            assert(false);
        }
        let pe = |e: StaleNodeIndexView| !(r1 <= e.stale_since_version <= t);
        lemma_filter_keeps_all(s1, pe);
        let pk = |k: NodeKeyView|
            !(exists|i: int|
                0 <= i < s1.len() && r1 <= #[trigger] s1[i].stale_since_version <= t
                    && s1[i].node_key == k);
        lemma_filter_keeps_all(p1.db.metadata.nodes, pk);
        assert(p2.db.metadata =~= p1.db.metadata);
        assert forall|i: int| 0 <= i < p1.db.shards.len() implies p2.db.shards[i]
            == p1.db.shards[i] by {
            assert(p1.shard_progresses[i] == r1);
        }
        assert(p2.db.shards =~= p1.db.shards);
        assert(p2.db =~= p1.db);
        assert(p2.shard_progresses =~= p1.shard_progresses);
        assert(p2 =~= p1);
    }
}

/// Writing a batch removes every entry and node it deletes, keeps every
/// other one, and leaves the progress entry it puts, if any.
pub proof fn law_batch_write(db: DbView, batch: SchemaBatchView)
    ensures
        forall|e: StaleNodeIndexView|
            #[trigger] db.apply(batch).stale_node_indices.contains(e) <==> (
            db.stale_node_indices.contains(e) && !batch.deleted_stale_node_indices.contains(e)),
        forall|k: NodeKeyView|
            #[trigger] db.apply(batch).nodes.contains(k) <==> (db.nodes.contains(k)
                && !batch.deleted_nodes.contains(k)),
        batch.progress is Some ==> db.apply(batch).progress == batch.progress,
        batch.progress is None ==> db.apply(batch).progress == db.progress,
{
    let s = db.stale_node_indices;
    let pe = |e: StaleNodeIndexView| !batch.deleted_stale_node_indices.contains(e);
    assert forall|e: StaleNodeIndexView|
        #[trigger] db.apply(batch).stale_node_indices.contains(e) <==> (s.contains(e) && pe(e)) by {
        if s.filter(pe).contains(e) {
            s.lemma_filter_contains_rev(pe, e);
            let j = choose|j: int| 0 <= j < s.filter(pe).len() && s.filter(pe)[j] == e;
            s.lemma_filter_pred(pe, j);
        }
        if s.contains(e) && pe(e) {
            let i = choose|i: int| 0 <= i < s.len() && s[i] == e;
            s.lemma_filter_contains(pe, i);
        }
    }
    let n = db.nodes;
    let pk = |k: NodeKeyView| !batch.deleted_nodes.contains(k);
    assert forall|k: NodeKeyView|
        #[trigger] db.apply(batch).nodes.contains(k) <==> (n.contains(k) && pk(k)) by {
        if n.filter(pk).contains(k) {
            n.lemma_filter_contains_rev(pk, k);
            let j = choose|j: int| 0 <= j < n.filter(pk).len() && n.filter(pk)[j] == k;
            n.lemma_filter_pred(pk, j);
        }
        if n.contains(k) && pk(k) {
            let i = choose|i: int| 0 <= i < n.len() && n[i] == k;
            n.lemma_filter_contains(pk, i);
        }
    }
}

/// An entry put into the index is found there afterwards, the database
/// stays well formed (the index in strictly ascending key order), and no
/// other entry is lost.
pub proof fn law_stale_node_index_read_after_put(db: DbView, index: StaleNodeIndexView)
    requires
        db.wf(),
        db.stale_node_indices.len() < usize::MAX,
    ensures
        db.with_stale_node_index(index).stale_node_indices.contains(index),
        db.with_stale_node_index(index).wf(),
        forall|e: StaleNodeIndexView|
            #[trigger] db.stale_node_indices.contains(e)
                ==> db.with_stale_node_index(index).stale_node_indices.contains(e),
{
    let s = db.stale_node_indices;
    if !s.contains(index) {
        lemma_key_position(s, index);
        lemma_insert_at_key_position(s, index);
        let p = key_position(s, index);
        let t = s.insert(p, index);
        assert forall|e: StaleNodeIndexView| #[trigger] s.contains(e) implies t.contains(e) by {
            let i = choose|i: int| 0 <= i < s.len() && s[i] == e;
            if i < p {
                assert(t[i] == e);
            } else {
                assert(t[i + 1] == e);
            }
        }
    }
}

/// A node put into the database is found there afterwards, and no other
/// node is lost.
pub proof fn law_node_read_after_put(db: DbView, key: NodeKeyView)
    ensures
        db.with_node(key).nodes.contains(key),
        forall|k: NodeKeyView| #[trigger] db.nodes.contains(k) ==> db.with_node(key).nodes.contains(k),
{
    if !db.nodes.contains(key) {
        assert(db.nodes.push(key)[db.nodes.len() as int] == key);
        assert forall|k: NodeKeyView| #[trigger] db.nodes.contains(k) implies db.nodes.push(key).contains(k) by {
            let i = choose|i: int| 0 <= i < db.nodes.len() && db.nodes[i] == k;
            assert(db.nodes.push(key)[i] == k);
        }
    }
}

/// One batch prunes at most `batch_size` entries, every one of them stale
/// since a version from `start` to `target`.
pub proof fn law_batch_bounded(s: Seq<StaleNodeIndexView>, start: int, target: int, batch_size: int)
    requires
        sorted_by_version(s),
        batch_size >= 0,
    ensures
        selected_indices(s, start, target, batch_size).len() <= batch_size,
        forall|j: int|
            0 <= j < selected_indices(s, start, target, batch_size).len() ==> start
                <= #[trigger] selected_indices(s, start, target, batch_size)[j].stale_since_version
                <= target,
{
    lemma_in_range(s, start, target);
    let lo = crate::schemadb::seek_position(s, start);
    let sel = selected_indices(s, start, target, batch_size);
    assert forall|j: int| 0 <= j < sel.len() implies start <= #[trigger] sel[j].stale_since_version
        <= target by {
        assert(sel[j] == s[lo + j]);
    }
}

/// Reading a shard's progress after setting it gives what was set, and no
/// other shard's progress changes.
pub proof fn law_shard_progress_read_after_set(p: StateMerklePrunerView, shard: int, v: Version)
    requires
        0 <= shard < p.shard_progresses.len(),
    ensures
        p.with_shard_progress(shard, v).shard_progresses[shard] == v,
        forall|j: int|
            0 <= j < p.shard_progresses.len() && j != shard ==> #[trigger] p.with_shard_progress(
                shard,
                v,
            ).shard_progresses[j] == p.shard_progresses[j],
        p.with_shard_progress(shard, v).shard_progresses.len() == p.shard_progresses.len(),
{
}

/// Bringing a shard to the version it is at changes nothing; so bringing a
/// shard to a version twice is bringing it there once.
pub proof fn law_shard_prune_repeat(
    p: StateMerklePrunerView,
    shard: int,
    target: Version,
    batch_size: int,
)
    requires
        p.wf(),
        0 <= shard < p.shard_progresses.len(),
    ensures
        p.shard_progresses[shard] == target ==> p.with_shard_pruned(shard, target, batch_size)
            == p,
        p.with_shard_pruned(shard, target, batch_size).with_shard_pruned(
            shard,
            target,
            batch_size,
        ) == p.with_shard_pruned(shard, target, batch_size),
{
    if p.shard_progresses[shard] == target {
        assert(p.db.shards.update(shard, p.db.shards[shard]) =~= p.db.shards);
        assert(p.shard_progresses.update(shard, target) =~= p.shard_progresses);
        assert(p.with_shard_pruned(shard, target, batch_size) =~= p);
    }
    let q = p.with_shard_pruned(shard, target, batch_size);
    assert(q.db.shards.update(shard, q.db.shards[shard]) =~= q.db.shards);
    assert(q.shard_progresses.update(shard, target) =~= q.shard_progresses);
    assert(q.with_shard_pruned(shard, target, batch_size) =~= q);
}

/// Every state a pruner reaches keeps one progress per shard: setting the
/// target or the progress, setting or pruning one shard, bringing every
/// shard through, opening and pruning all keep the number of shards and of
/// their progresses equal.
pub proof fn law_one_progress_per_shard(
    p: StateMerklePrunerView,
    v: Version,
    shard: int,
    batch_size: int,
    after: StateMerklePrunerView,
    r: Version,
    db: StateMerkleDbView,
)
    requires
        p.wf(),
        0 <= shard < p.shard_progresses.len(),
    ensures
        p.with_target(v).shard_progresses.len() == p.with_target(v).db.shards.len(),
        p.with_progress(v).shard_progresses.len() == p.with_progress(v).db.shards.len(),
        p.with_shard_progress(shard, v).shard_progresses.len() == p.db.shards.len(),
        p.with_shard_pruned(shard, v, batch_size).shard_progresses.len() == p.with_shard_pruned(
            shard,
            v,
            batch_size,
        ).db.shards.len(),
        p.with_shards_through(v).shard_progresses.len() == p.with_shards_through(
            v,
        ).db.shards.len(),
        StateMerklePrunerView::opened(db).shard_progresses.len()
            == StateMerklePrunerView::opened(db).db.shards.len() == db.shards.len(),
        p.prune_result(batch_size, after, r) ==> after.shard_progresses.len()
            == after.db.shards.len() == p.db.shards.len(),
{
}

/// Pruning the genesis state deletes exactly the entries of the metadata
/// index stale since version 0 or 1.
pub proof fn law_genesis_prunes_versions_up_to_one(db: DbView)
    requires
        db.wf(),
    ensures
        forall|e: StaleNodeIndexView|
            #[trigger] selected_indices(db.stale_node_indices, 0, 1, usize::MAX as int).contains(e)
                <==> (db.stale_node_indices.contains(e) && e.stale_since_version <= 1),
{
    let s = db.stale_node_indices;
    lemma_in_range(s, 0, 1);
    let lo = crate::schemadb::seek_position(s, 0);
    let hi = crate::batch::in_range_end(s, 0, 1);
    let run = selected_indices(s, 0, 1, usize::MAX as int);
    assert(run == s.subrange(lo, hi));
    assert forall|e: StaleNodeIndexView| #[trigger] run.contains(e) <==> (s.contains(e)
        && e.stale_since_version <= 1) by {
        if run.contains(e) {
            let j = choose|j: int| 0 <= j < run.len() && run[j] == e;
            assert(s[lo + j] == e);
        }
        if s.contains(e) && e.stale_since_version <= 1 {
            let i = choose|i: int| 0 <= i < s.len() && s[i] == e;
            assert(run[i - lo] == e);
        }
    }
}

/// Bringing one shard to a version touches only that shard and its
/// progress; so bringing distinct shards there gives the same pruner in
/// either order.
pub proof fn law_shard_prunes_commute(
    p: StateMerklePrunerView,
    i: int,
    j: int,
    target: Version,
    batch_size: int,
)
    requires
        p.wf(),
        0 <= i < p.shard_progresses.len(),
        0 <= j < p.shard_progresses.len(),
        i != j,
    ensures
        forall|k: int|
            0 <= k < p.shard_progresses.len() && k != i ==> #[trigger] p.with_shard_pruned(
                i,
                target,
                batch_size,
            ).db.shards[k] == p.db.shards[k] && p.with_shard_pruned(
                i,
                target,
                batch_size,
            ).shard_progresses[k] == p.shard_progresses[k],
        p.with_shard_pruned(i, target, batch_size).db.metadata == p.db.metadata,
        p.with_shard_pruned(i, target, batch_size).progress == p.progress,
        p.with_shard_pruned(i, target, batch_size).target_version == p.target_version,
        p.with_shard_pruned(i, target, batch_size).with_shard_pruned(j, target, batch_size)
            == p.with_shard_pruned(j, target, batch_size).with_shard_pruned(i, target, batch_size),
{
    let a = p.with_shard_pruned(i, target, batch_size).with_shard_pruned(j, target, batch_size);
    let b = p.with_shard_pruned(j, target, batch_size).with_shard_pruned(i, target, batch_size);
    assert(a.db.shards =~= b.db.shards);
    assert(a.shard_progresses =~= b.shard_progresses);
    assert(a =~= b);
}

/// Pruning never moves the min readable version back, nor past the target
/// where it was before it, and leaves the target as it was.
pub proof fn law_prune_progress_bounded(
    batch_size: int,
    p: StateMerklePrunerView,
    after: StateMerklePrunerView,
    r: Version,
)
    requires
        p.prune_result(batch_size, after, r),
    ensures
        p.progress <= r,
        r == after.progress,
        r <= p.progress || r <= p.target_version,
        after.target_version == p.target_version,
{
}

/// Where every shard is at the min readable version, as right after the
/// pruner is opened, pruning keeps them so.
pub proof fn law_prune_keeps_shards_at_progress(
    batch_size: int,
    p: StateMerklePrunerView,
    after: StateMerklePrunerView,
    r: Version,
)
    requires
        p.wf(),
        p.shards_at(p.progress),
        p.prune_result(batch_size, after, r),
    ensures
        after.shards_at(after.progress),
        after.shard_progresses.len() == p.shard_progresses.len(),
{
}

/// The entries of an index stale since a version from `start` to `target`,
/// in index order.
pub open spec fn stale_in_range(
    s: Seq<StaleNodeIndexView>,
    start: int,
    target: int,
) -> Seq<StaleNodeIndexView> {
    s.filter(|e: StaleNodeIndexView| start <= e.stale_since_version <= target)
}

/// The entries of an index that a read from `start` finds newer than
/// `target`, in index order.
pub open spec fn stale_after_range(
    s: Seq<StaleNodeIndexView>,
    start: int,
    target: int,
) -> Seq<StaleNodeIndexView> {
    s.filter(|e: StaleNodeIndexView| start <= e.stale_since_version && target < e.stale_since_version)
}

/// The entries in range and those after it are the runs of a sorted index
/// that a read from `start` meets, the ones in range first.
proof fn lemma_range_runs(s: Seq<StaleNodeIndexView>, start: int, target: int)
    requires
        sorted_by_version(s),
    ensures
        stale_in_range(s, start, target) == s.subrange(
            seek_position(s, start),
            in_range_end(s, start, target),
        ),
        stale_after_range(s, start, target) == s.subrange(
            in_range_end(s, start, target),
            s.len() as int,
        ),
{
    lemma_in_range(s, start, target);
    let lo = seek_position(s, start);
    let hi = in_range_end(s, start, target);
    lemma_filter_keeps_run(
        s,
        |e: StaleNodeIndexView| start <= e.stale_since_version <= target,
        lo,
        hi,
    );
    lemma_filter_keeps_run(
        s,
        |e: StaleNodeIndexView| start <= e.stale_since_version && target < e.stale_since_version,
        hi,
        s.len() as int,
    );
}

/// One batch of pruning from `start` to `target` selects exactly the first
/// `batch_size` of the entries stale since a version in that range, or all
/// of them where there are fewer: never fewer, never others, in index order.
pub proof fn law_batch_selects_first_in_range(
    s: Seq<StaleNodeIndexView>,
    start: int,
    target: int,
    batch_size: int,
)
    requires
        sorted_by_version(s),
        batch_size >= 0,
    ensures
        ({
            let in_range = stale_in_range(s, start, target);
            let n = if in_range.len() < batch_size {
                in_range.len() as int
            } else {
                batch_size
            };
            selected_indices(s, start, target, batch_size) == in_range.take(n)
        }),
{
    lemma_range_runs(s, start, target);
    lemma_in_range(s, start, target);
    let in_range = stale_in_range(s, start, target);
    let n = if in_range.len() < batch_size {
        in_range.len() as int
    } else {
        batch_size
    };
    assert(selected_indices(s, start, target, batch_size) =~= in_range.take(n));
}

/// The version a batch reports is that of the last entry it read, one more
/// than it may prune: where more than `batch_size` entries are in range, the
/// first one in range it does not return; else the first entry newer than
/// `target`; else the last one in range; and none where the read from
/// `start` finds nothing.
pub proof fn law_batch_reports_entry_after_batch(
    s: Seq<StaleNodeIndexView>,
    start: int,
    target: int,
    batch_size: int,
)
    requires
        sorted_by_version(s),
        batch_size >= 0,
    ensures
        ({
            let in_range = stale_in_range(s, start, target);
            let after = stale_after_range(s, start, target);
            let next = batch_next_version(s, start, target, batch_size);
            &&& in_range.len() > batch_size ==> next == Some(in_range[batch_size].stale_since_version)
            &&& in_range.len() <= batch_size && after.len() > 0 ==> next == Some(
                after[0].stale_since_version,
            )
            &&& in_range.len() <= batch_size && after.len() == 0 && in_range.len() > 0 ==> next
                == Some(in_range.last().stale_since_version)
            &&& in_range.len() == 0 && after.len() == 0 ==> next is None
        }),
{
    lemma_range_runs(s, start, target);
    lemma_in_range(s, start, target);
}

/// Bringing a shard that is behind `target` there by one batch removes from
/// its index exactly the first `batch_size` of its entries stale since a
/// version from its progress to `target` (all of them where there are
/// fewer), and the nodes those name, keeps every other entry and node, and
/// records `target`.
pub proof fn law_shard_batch_prunes_first_in_range(
    p: StateMerklePrunerView,
    shard: int,
    target: Version,
    batch_size: int,
)
    requires
        p.wf(),
        0 <= shard < p.shard_progresses.len(),
        p.shard_progresses[shard] != target,
        batch_size >= 0,
    ensures
        ({
            let before = p.db.shards[shard];
            let after = p.with_shard_pruned(shard, target, batch_size).db.shards[shard];
            let in_range = stale_in_range(
                before.stale_node_indices,
                p.shard_progresses[shard] as int,
                target as int,
            );
            let n = if in_range.len() < batch_size {
                in_range.len() as int
            } else {
                batch_size
            };
            let gone = in_range.take(n);
            &&& after.stale_node_indices == before.stale_node_indices.filter(
                |e: StaleNodeIndexView| !gone.contains(e),
            )
            &&& after.stale_node_indices.len() == before.stale_node_indices.len() - n
            &&& forall|e: StaleNodeIndexView|
                #[trigger] before.stale_node_indices.contains(e) ==> (
                after.stale_node_indices.contains(e) <==> !gone.contains(e))
            &&& after.nodes == before.nodes.filter(
                |k: NodeKeyView|
                    !gone.map_values(|e: StaleNodeIndexView| e.node_key).contains(k),
            )
            &&& after.progress == Some(target)
        }),
{
    let before = p.db.shards[shard];
    let s = before.stale_node_indices;
    let start = p.shard_progresses[shard] as int;
    assert(before.wf());
    law_batch_selects_first_in_range(s, start, target as int, batch_size);
    lemma_in_range(s, start, target as int);
    let lo = seek_position(s, start);
    let end = selected_end(s, start, target as int, batch_size);
    let gone = selected_indices(s, start, target as int, batch_size);
    let keep = |e: StaleNodeIndexView| !gone.contains(e);
    // No entry occurs twice, so an entry outside the run is not one of it.
    assert forall|i: int| 0 <= i < s.len() implies keep(s[i]) == (i < lo || end <= i) by {
        if lo <= i < end {
            assert(gone[i - lo] == s[i]);
        } else if gone.contains(s[i]) {
            let j = choose|j: int| 0 <= j < gone.len() && gone[j] == s[i];
            assert(gone[j] == s[lo + j]);
            if i < lo + j {
                assert(index_lt(s[i], s[lo + j]));
            } else {
                assert(index_lt(s[lo + j], s[i]));
            }
            lemma_index_lt(s[i], s[i], s[i]);
        }
    }
    lemma_filter_cuts_run(s, keep, lo, end);
    let after = s.filter(keep);
    assert forall|e: StaleNodeIndexView| #[trigger] s.contains(e) implies (after.contains(e)
        <==> !gone.contains(e)) by {
        let i = choose|i: int| 0 <= i < s.len() && s[i] == e;
        if after.contains(e) {
            s.lemma_filter_contains_rev(keep, e);
            let j = choose|j: int| 0 <= j < after.len() && after[j] == e;
            s.lemma_filter_pred(keep, j);
        }
        if !gone.contains(e) {
            s.lemma_filter_contains(keep, i);
        }
    }
}

} // verus!
