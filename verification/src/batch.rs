//! Batches of pruning: which entries of a stale node index one batch
//! selects, and what a database holds after batches of pruning.
use vstd::prelude::*;
use crate::node::{NodeKeyView, StaleNodeIndexView, Version};
use vstd::set_lib::{lemma_int_range, lemma_len_subset, set_int_range};
use crate::schemadb::{
    lemma_filter_congruent, lemma_filter_cuts_run, lemma_filter_filter, lemma_seek_position,
    seek_position, sorted_by_version, DbView, SchemaBatchView,
};

verus! {

/// Where the entries that a read starting at `start` finds no newer than
/// `target` end: the first entry from the seek position on that is newer
/// than `target`, or the end of the index.
pub open spec fn in_range_end(s: Seq<StaleNodeIndexView>, start: int, target: int) -> int {
    let lo = seek_position(s, start);
    let hi = seek_position(s, target + 1);
    if hi < lo {
        lo
    } else {
        hi
    }
}

/// Where the entries selected by one batch end: at most `batch_size` of the
/// entries in range.
pub open spec fn selected_end(
    s: Seq<StaleNodeIndexView>,
    start: int,
    target: int,
    batch_size: int,
) -> int {
    let lo = seek_position(s, start);
    let hi = in_range_end(s, start, target);
    if hi - lo > batch_size {
        lo + batch_size
    } else {
        hi
    }
}

/// The entries one batch prunes: from the first entry stale since `start`
/// or later, the entries stale since `target` or earlier, at most
/// `batch_size` of them.
pub open spec fn selected_indices(
    s: Seq<StaleNodeIndexView>,
    start: int,
    target: int,
    batch_size: int,
) -> Seq<StaleNodeIndexView> {
    s.subrange(seek_position(s, start), selected_end(s, start, target, batch_size))
}

/// The version of the last entry that a batch reads. A batch reads one
/// entry more than it may prune: the entry after a full batch, else the
/// first entry newer than `target`, else the last entry of the index.
pub open spec fn batch_next_version(
    s: Seq<StaleNodeIndexView>,
    start: int,
    target: int,
    batch_size: int,
) -> Option<Version> {
    let lo = seek_position(s, start);
    let hi = in_range_end(s, start, target);
    if lo + batch_size < hi {
        Some(s[lo + batch_size].stale_since_version)
    } else if hi < s.len() {
        Some(s[hi].stale_since_version)
    } else if lo < hi {
        Some(s[hi - 1].stale_since_version)
    } else {
        None
    }
}

/// The batch that prunes the selected entries, their nodes, and records
/// `target` as the progress.
pub open spec fn prune_batch_view(
    s: Seq<StaleNodeIndexView>,
    start: int,
    target: Version,
    batch_size: int,
) -> SchemaBatchView {
    let run = selected_indices(s, start, target as int, batch_size);
    SchemaBatchView {
        deleted_stale_node_indices: run,
        deleted_nodes: run.map_values(|e: StaleNodeIndexView| e.node_key),
        progress: Some(target),
    }
}

/// A database after one batch of pruning from `start` to `target`.
pub open spec fn pruned_by_batch(db: DbView, start: int, target: Version, batch_size: int) -> DbView {
    db.apply(prune_batch_view(db.stale_node_indices, start, target, batch_size))
}

/// A database after every entry stale since a version from `start` to
/// `target` is pruned, with the nodes they name, and `target` is recorded
/// as the progress.
pub open spec fn pruned_through(db: DbView, start: int, target: Version) -> DbView {
    DbView {
        stale_node_indices: db.stale_node_indices.filter(
            |e: StaleNodeIndexView| !(start <= e.stale_since_version <= target),
        ),
        nodes: db.nodes.filter(
            |k: NodeKeyView|
                !(exists|i: int|
                    0 <= i < db.stale_node_indices.len() && start
                        <= #[trigger] db.stale_node_indices[i].stale_since_version <= target
                        && db.stale_node_indices[i].node_key == k),
        ),
        progress: Some(target),
    }
}

/// The entries a read finds in range are those stale since a version from
/// `start` to `target`; those before are older, those after newer.
pub proof fn lemma_in_range(s: Seq<StaleNodeIndexView>, start: int, target: int)
    requires
        sorted_by_version(s),
    ensures
        0 <= seek_position(s, start) <= in_range_end(s, start, target) <= s.len(),
        forall|i: int| 0 <= i < seek_position(s, start) ==> s[i].stale_since_version < start,
        forall|i: int|
            seek_position(s, start) <= i < in_range_end(s, start, target) ==> start
                <= #[trigger] s[i].stale_since_version <= target,
        forall|i: int|
            in_range_end(s, start, target) <= i < s.len() ==> target < s[i].stale_since_version,
        forall|i: int|
            seek_position(s, start) <= i < s.len() ==> start <= s[i].stale_since_version,
{
    lemma_seek_position(s, start);
    lemma_seek_position(s, target + 1);
}

/// With a batch larger than the index, one batch prunes everything in range.
pub proof fn lemma_unbounded_batch(db: DbView, start: int, target: Version, batch_size: int)
    requires
        db.wf(),
        batch_size >= db.stale_node_indices.len(),
    ensures
        pruned_by_batch(db, start, target, batch_size) == pruned_through(db, start, target),
        pruned_by_batch(db, start, target, batch_size).stale_node_indices
            == db.stale_node_indices.subrange(0, seek_position(db.stale_node_indices, start))
            + db.stale_node_indices.subrange(
            in_range_end(db.stale_node_indices, start, target as int),
            db.stale_node_indices.len() as int,
        ),
{
    let s = db.stale_node_indices;
    lemma_in_range(s, start, target as int);
    let lo = seek_position(s, start);
    let hi = in_range_end(s, start, target as int);
    let run = selected_indices(s, start, target as int, batch_size);
    assert(run == s.subrange(lo, hi));
    let p = |e: StaleNodeIndexView| !run.contains(e);
    let q = |e: StaleNodeIndexView| !(start <= e.stale_since_version <= target);
    assert forall|i: int| 0 <= i < s.len() implies p(s[i]) == q(s[i]) by {
        if lo <= i < hi {
            assert(run[i - lo] == s[i]);
        } else if run.contains(s[i]) {
            let j = choose|j: int| 0 <= j < run.len() && run[j] == s[i];
            assert(s[lo + j] == s[i]);
        }
    }
    lemma_filter_congruent(s, p, q);
    assert forall|i: int| 0 <= i < s.len() implies p(s[i]) == (i < lo || hi <= i) by {
    }
    lemma_filter_cuts_run(s, p, lo, hi);
    let keys = run.map_values(|e: StaleNodeIndexView| e.node_key);
    let kp = |k: NodeKeyView| !keys.contains(k);
    let kq = |k: NodeKeyView|
        !(exists|i: int|
            0 <= i < s.len() && start <= #[trigger] s[i].stale_since_version <= target
                && s[i].node_key == k);
    assert forall|k: NodeKeyView| #[trigger] kp(k) == kq(k) by {
        if keys.contains(k) {
            let j = choose|j: int| 0 <= j < keys.len() && keys[j] == k;
            assert(s[lo + j] == run[j]);
            assert(start <= s[lo + j].stale_since_version <= target && s[lo + j].node_key == k);
        }
        if !kq(k) {
            let i = choose|i: int|
                0 <= i < s.len() && start <= #[trigger] s[i].stale_since_version <= target
                    && s[i].node_key == k;
            assert(keys[i - lo] == k);
        }
    }
    assert(kp =~= kq);
    assert(pruned_by_batch(db, start, target, batch_size) =~= pruned_through(db, start, target));
}

/// Some entry became stale at `version`.
pub open spec fn has_version(s: Seq<StaleNodeIndexView>, version: int) -> bool {
    exists|i: int| 0 <= i < s.len() && #[trigger] s[i].stale_since_version == version
}

/// No entry became stale at a version from `lo` to `hi`.
pub open spec fn no_version_in(s: Seq<StaleNodeIndexView>, lo: int, hi: int) -> bool {
    forall|i: int| 0 <= i < s.len() ==> !(lo <= #[trigger] s[i].stale_since_version <= hi)
}

/// The versions after `lo` and up to `hi` at which an entry of the index
/// became stale.
pub open spec fn stale_versions_in(s: Seq<StaleNodeIndexView>, lo: int, hi: int) -> Set<int> {
    Set::new(|v: int| lo < v <= hi && has_version(s, v))
}

/// There are finitely many such versions, more of them over a wider range.
pub proof fn lemma_stale_versions_finite(s: Seq<StaleNodeIndexView>, lo: int, mid: int, hi: int)
    requires
        lo <= mid <= hi,
    ensures
        stale_versions_in(s, lo, mid).finite(),
        stale_versions_in(s, lo, hi).finite(),
        stale_versions_in(s, lo, mid).len() <= stale_versions_in(s, lo, hi).len(),
{
    lemma_int_range(lo + 1, hi + 1);
    lemma_len_subset(stale_versions_in(s, lo, hi), set_int_range(lo + 1, hi + 1));
    lemma_len_subset(stale_versions_in(s, lo, mid), stale_versions_in(s, lo, hi));
}

/// Going on from `min` to the next version `tvb` at which an entry became
/// stale adds that one version.
pub proof fn lemma_stale_versions_step(s: Seq<StaleNodeIndexView>, lo: int, min: int, tvb: int)
    requires
        lo <= min < tvb,
        has_version(s, tvb),
        no_version_in(s, min + 1, tvb - 1),
    ensures
        stale_versions_in(s, lo, tvb).len() == stale_versions_in(s, lo, min).len() + 1,
{
    lemma_stale_versions_finite(s, lo, min, tvb);
    let a = stale_versions_in(s, lo, min);
    let b = stale_versions_in(s, lo, tvb);
    assert forall|v: int| #[trigger] b.contains(v) <==> a.insert(tvb).contains(v) by {
        if b.contains(v) && min < v < tvb {
            let i = choose|i: int| 0 <= i < s.len() && #[trigger] s[i].stale_since_version == v;
            assert(!(min + 1 <= s[i].stale_since_version <= tvb - 1));
        }
    }
    assert(b =~= a.insert(tvb));
}

/// Pruning from `a` to `b` and then from `b` to `c` is pruning from `a` to
/// `c`.
pub proof fn lemma_pruned_through_compose(d: DbView, a: int, b: Version, c: Version)
    requires
        a <= b <= c,
    ensures
        pruned_through(pruned_through(d, a, b), b as int, c) == pruned_through(d, a, c),
{
    let s = d.stale_node_indices;
    let mid = pruned_through(d, a, b);
    let p1 = |e: StaleNodeIndexView| !(a <= e.stale_since_version <= b);
    let p2 = |e: StaleNodeIndexView| !(b <= e.stale_since_version <= c);
    let p = |e: StaleNodeIndexView| !(a <= e.stale_since_version <= c);
    lemma_filter_filter(s, p1, p2);
    assert((|e: StaleNodeIndexView| p1(e) && p2(e)) =~= p);
    let t = mid.stale_node_indices;
    assert(t == s.filter(p1));
    let q1 = |k: NodeKeyView|
        !(exists|i: int|
            0 <= i < s.len() && a <= #[trigger] s[i].stale_since_version <= b && s[i].node_key
                == k);
    let q2 = |k: NodeKeyView|
        !(exists|i: int|
            0 <= i < t.len() && b <= #[trigger] t[i].stale_since_version <= c && t[i].node_key
                == k);
    let q = |k: NodeKeyView|
        !(exists|i: int|
            0 <= i < s.len() && a <= #[trigger] s[i].stale_since_version <= c && s[i].node_key
                == k);
    lemma_filter_filter(d.nodes, q1, q2);
    assert forall|k: NodeKeyView| #[trigger] q(k) == (q1(k) && q2(k)) by {
        if !q(k) {
            let i = choose|i: int|
                0 <= i < s.len() && a <= #[trigger] s[i].stale_since_version <= c && s[i].node_key
                    == k;
            if s[i].stale_since_version > b {
                s.lemma_filter_contains(p1, i);
                let j = choose|j: int| 0 <= j < t.len() && t[j] == s[i];
                assert(b <= t[j].stale_since_version <= c && t[j].node_key == k);
            }
        }
        if !q2(k) {
            let j = choose|j: int|
                0 <= j < t.len() && b <= #[trigger] t[j].stale_since_version <= c && t[j].node_key
                    == k;
            assert(t.contains(t[j]));
            s.lemma_filter_contains_rev(p1, t[j]);
            let i = choose|i: int| 0 <= i < s.len() && s[i] == t[j];
            assert(a <= s[i].stale_since_version <= c && s[i].node_key == k);
        }
    }
    assert((|k: NodeKeyView| q1(k) && q2(k)) =~= q);
    assert(pruned_through(mid, b as int, c) =~= pruned_through(d, a, c));
}

/// Pruning further, over versions at which nothing became stale, prunes
/// nothing more.
pub proof fn lemma_pruned_through_extend(d: DbView, a: int, b: Version, c: Version)
    requires
        b <= c,
        no_version_in(d.stale_node_indices, b + 1, c as int),
    ensures
        pruned_through(d, a, c) == (DbView { progress: Some(c), ..pruned_through(d, a, b) }),
{
    let s = d.stale_node_indices;
    let p1 = |e: StaleNodeIndexView| !(a <= e.stale_since_version <= b);
    let p = |e: StaleNodeIndexView| !(a <= e.stale_since_version <= c);
    assert forall|i: int| 0 <= i < s.len() implies p1(s[i]) == p(s[i]) by {
        assert(!(b + 1 <= s[i].stale_since_version <= c));
    }
    lemma_filter_congruent(s, p1, p);
    let q1 = |k: NodeKeyView|
        !(exists|i: int|
            0 <= i < s.len() && a <= #[trigger] s[i].stale_since_version <= b && s[i].node_key
                == k);
    let q = |k: NodeKeyView|
        !(exists|i: int|
            0 <= i < s.len() && a <= #[trigger] s[i].stale_since_version <= c && s[i].node_key
                == k);
    assert forall|k: NodeKeyView| #[trigger] q(k) == q1(k) by {
        if !q(k) {
            let i = choose|i: int|
                0 <= i < s.len() && a <= #[trigger] s[i].stale_since_version <= c && s[i].node_key
                    == k;
            assert(!(b + 1 <= s[i].stale_since_version <= c));
        }
    }
    assert(q1 =~= q);
    assert(pruned_through(d, a, c) =~= (DbView { progress: Some(c), ..pruned_through(d, a, b) }));
}

/// Going from `before` to `after`, nothing was added, and what was removed
/// is entries stale since a version from `lo` to `hi` and nodes they name.
#[verifier::opaque]
pub open spec fn removed_only_within(before: DbView, after: DbView, lo: int, hi: int) -> bool {
    &&& forall|e: StaleNodeIndexView|
        #[trigger] after.stale_node_indices.contains(e) ==> before.stale_node_indices.contains(e)
    &&& forall|e: StaleNodeIndexView|
        #[trigger] before.stale_node_indices.contains(e) && !after.stale_node_indices.contains(e)
            ==> lo <= e.stale_since_version <= hi
    &&& forall|k: NodeKeyView| #[trigger] after.nodes.contains(k) ==> before.nodes.contains(k)
    &&& forall|k: NodeKeyView|
        #[trigger] before.nodes.contains(k) && !after.nodes.contains(k) ==> exists|
            e: StaleNodeIndexView,
        |
            #[trigger] before.stale_node_indices.contains(e) && e.node_key == k && lo
                <= e.stale_since_version <= hi
}

/// A batch of pruning removes nothing outside its range.
pub proof fn lemma_batch_removes_within(db: DbView, start: int, target: Version, batch_size: int)
    requires
        db.wf(),
        batch_size >= 0,
    ensures
        removed_only_within(db, pruned_by_batch(db, start, target, batch_size), start, target as int),
{
    reveal(removed_only_within);
    let s = db.stale_node_indices;
    lemma_in_range(s, start, target as int);
    let lo = seek_position(s, start);
    let end = selected_end(s, start, target as int, batch_size);
    let run = selected_indices(s, start, target as int, batch_size);
    let keys = run.map_values(|e: StaleNodeIndexView| e.node_key);
    let after = pruned_by_batch(db, start, target, batch_size);
    let p = |e: StaleNodeIndexView| !run.contains(e);
    let q = |k: NodeKeyView| !keys.contains(k);
    assert(after.stale_node_indices == s.filter(p));
    assert(after.nodes == db.nodes.filter(q));
    assert forall|e: StaleNodeIndexView| #[trigger] after.stale_node_indices.contains(e) implies s.contains(e) by {
        s.lemma_filter_contains_rev(p, e);
    }
    assert forall|e: StaleNodeIndexView|
        #[trigger] s.contains(e) && !after.stale_node_indices.contains(e) implies start
        <= e.stale_since_version <= target by {
        let i = choose|i: int| 0 <= i < s.len() && s[i] == e;
        if !run.contains(e) {
            s.lemma_filter_contains(p, i);
        }
        let j = choose|j: int| 0 <= j < run.len() && run[j] == e;
        assert(run[j] == s[lo + j]);
    }
    assert forall|k: NodeKeyView| #[trigger] after.nodes.contains(k) implies db.nodes.contains(k) by {
        db.nodes.lemma_filter_contains_rev(q, k);
    }
    assert forall|k: NodeKeyView|
        #[trigger] db.nodes.contains(k) && !after.nodes.contains(k) implies exists|
            e: StaleNodeIndexView,
        |
            #[trigger] s.contains(e) && e.node_key == k && start <= e.stale_since_version
                <= target by {
        let i = choose|i: int| 0 <= i < db.nodes.len() && db.nodes[i] == k;
        if !keys.contains(k) {
            db.nodes.lemma_filter_contains(q, i);
        }
        let j = choose|j: int| 0 <= j < keys.len() && keys[j] == k;
        assert(run[j] == s[lo + j]);
        assert(s.contains(s[lo + j]));
    }
}

/// Nothing removed is removed within any range.
pub proof fn lemma_removed_within_refl(db: DbView, lo: int, hi: int)
    ensures
        removed_only_within(db, db, lo, hi),
{
    reveal(removed_only_within);
}

/// Removals within ranges add up.
pub proof fn lemma_removed_within_trans(
    a: DbView,
    b: DbView,
    c: DbView,
    lo: int,
    mid: int,
    lo2: int,
    hi: int,
)
    requires
        removed_only_within(a, b, lo, mid),
        removed_only_within(b, c, lo2, hi),
        lo <= lo2,
        mid <= hi,
    ensures
        removed_only_within(a, c, lo, hi),
{
    reveal(removed_only_within);
    assert forall|k: NodeKeyView|
        #[trigger] a.nodes.contains(k) && !c.nodes.contains(k) implies exists|
            e: StaleNodeIndexView,
        |
            #[trigger] a.stale_node_indices.contains(e) && e.node_key == k && lo
                <= e.stale_since_version <= hi by {
        if b.nodes.contains(k) {
            let e = choose|e: StaleNodeIndexView|
                #[trigger] b.stale_node_indices.contains(e) && e.node_key == k && lo2
                    <= e.stale_since_version <= hi;
            assert(a.stale_node_indices.contains(e));
        } else {
            let e = choose|e: StaleNodeIndexView|
                #[trigger] a.stale_node_indices.contains(e) && e.node_key == k && lo
                    <= e.stale_since_version <= mid;
        }
    }
}

/// A shard after it is brought from `progress` to `target`: untouched when
/// it is there already, else pruned by one batch.
pub open spec fn pruned_shard(db: DbView, progress: Version, target: Version, batch_size: int) -> DbView {
    if progress == target {
        db
    } else {
        pruned_by_batch(db, progress as int, target, batch_size)
    }
}


/// What a step of pruning the top levels from `min` to `tvb` leaves of the
/// metadata index `s`, which is what remains of `s0` after pruning from
/// `min0` to `min` (or all of `s0` before the first step).
pub proof fn lemma_top_levels_step(
    s0: Seq<StaleNodeIndexView>,
    s: Seq<StaleNodeIndexView>,
    min0: Version,
    min: Version,
    tvb: Version,
    started: bool,
    next: Option<Version>,
)
    requires
        sorted_by_version(s),
        min0 <= min <= tvb,
        !started ==> s == s0 && min == min0,
        started ==> s == s0.filter(
            |e: StaleNodeIndexView| !(min0 <= e.stale_since_version <= min),
        ),
        tvb == min || has_version(s, tvb as int),
        next == ({
            let lo = seek_position(s, min as int);
            let hi = in_range_end(s, min as int, tvb as int);
            if hi < s.len() {
                Some(s[hi].stale_since_version)
            } else if lo < hi {
                Some(s[hi - 1].stale_since_version)
            } else {
                None
            }
        }),
    ensures
        has_version(s, tvb as int) ==> has_version(s0, tvb as int),
        has_version(s, tvb as int) ==> seek_position(s, min as int) < in_range_end(
            s,
            min as int,
            tvb as int,
        ),
        next is None ==> no_version_in(s0, min + 1, u64::MAX as int),
        started && no_version_in(s0, min + 1, u64::MAX as int) ==> next is None,
        next matches Some(v) && v == tvb ==> no_version_in(s0, tvb + 1, u64::MAX as int),
        next matches Some(v) ==> {
            &&& v >= tvb
            &&& (v > tvb ==> has_version(
                s.subrange(0, seek_position(s, min as int)) + s.subrange(
                    in_range_end(s, min as int, tvb as int),
                    s.len() as int,
                ),
                v as int,
            ))
            &&& (v > tvb ==> has_version(s0, v as int))
            &&& (v > tvb ==> no_version_in(s0, tvb + 1, v - 1))
            &&& (v > tvb && !has_version(s, tvb as int) ==> seek_position(s, min as int)
                == in_range_end(s, min as int, tvb as int))
            &&& (v == tvb ==> seek_position(s, min as int) < in_range_end(
                s,
                min as int,
                tvb as int,
            ))
        },
{
    lemma_in_range(s, min as int, tvb as int);
    let lo = seek_position(s, min as int);
    let hi = in_range_end(s, min as int, tvb as int);
    let p = |e: StaleNodeIndexView| !(min0 <= e.stale_since_version <= min);
    // Every entry of `s` is one of `s0`.
    assert forall|j: int| 0 <= j < s.len() implies s0.contains(#[trigger] s[j]) by {
        if started {
            assert(s.contains(s[j]));
            s0.lemma_filter_contains_rev(p, s[j]);
        }
    }
    // Every entry of `s0` newer than `min` is one of `s`.
    assert forall|i: int| 0 <= i < s0.len() && s0[i].stale_since_version > min implies s.contains(
        #[trigger] s0[i],
    ) by {
        if started {
            s0.lemma_filter_contains(p, i);
        }
    }
    if has_version(s, tvb as int) {
        let j = choose|j: int| 0 <= j < s.len() && #[trigger] s[j].stale_since_version == tvb;
        assert(s0.contains(s[j]));
        assert(lo <= j < hi);
        let i = choose|i: int| 0 <= i < s0.len() && s0[i] == s[j];
        assert(s0[i].stale_since_version == tvb);
    }
    if next is None {
        assert forall|i: int| 0 <= i < s0.len() implies !(min + 1 <= #[trigger] s0[i].stale_since_version
            <= u64::MAX) by {
            if min < s0[i].stale_since_version {
                assert(s.contains(s0[i]));
                let j = choose|j: int| 0 <= j < s.len() && s[j] == s0[i];
                assert(s[j].stale_since_version >= min);
            }
        }
    }
    if let Some(v) = next {
        let t = s.subrange(0, lo) + s.subrange(hi, s.len() as int);
        if hi < s.len() {
            assert(v > tvb);
            assert(t[lo] == s[hi]);
            assert(has_version(t, v as int));
            assert(s0.contains(s[hi]));
            let i = choose|i: int| 0 <= i < s0.len() && s0[i] == s[hi];
            assert(has_version(s0, v as int));
            assert forall|i: int| 0 <= i < s0.len() implies !(tvb + 1 <= #[trigger] s0[i].stale_since_version
                <= v - 1) by {
                if tvb + 1 <= s0[i].stale_since_version {
                    assert(s.contains(s0[i]));
                    let j = choose|j: int| 0 <= j < s.len() && s[j] == s0[i];
                    if j < hi {
                    } else {
                        assert(s[hi].stale_since_version <= s[j].stale_since_version);
                    }
                }
            }
            if !has_version(s, tvb as int) && lo < hi {
                assert(s[lo].stale_since_version <= tvb);
                assert(min <= s[lo].stale_since_version);
            }
        } else {
            assert(lo < hi);
            if tvb == min {
            } else {
                let j = choose|j: int| 0 <= j < s.len() && #[trigger] s[j].stale_since_version == tvb;
                assert(s[j].stale_since_version <= s[hi - 1].stale_since_version);
            }
        }
    }
    if started && no_version_in(s0, min + 1, u64::MAX as int) && next is Some {
        let lo = seek_position(s, min as int);
        assert(lo < s.len());
        assert(s.contains(s[lo]));
        s0.lemma_filter_contains_rev(p, s[lo]);
        let i = choose|i: int| 0 <= i < s0.len() && s0[i] == s[lo];
        assert(!(min + 1 <= s0[i].stale_since_version <= u64::MAX));
        s0.lemma_filter_pred(p, lo);
    }
    if let Some(v) = next {
        if v == tvb {
            assert forall|i: int| 0 <= i < s0.len() implies !(tvb + 1
                <= #[trigger] s0[i].stale_since_version <= u64::MAX) by {
                if tvb < s0[i].stale_since_version {
                    assert(s.contains(s0[i]));
                    let j = choose|j: int| 0 <= j < s.len() && s[j] == s0[i];
                }
            }
        }
    }
}

/// A shard after it is brought from `progress` to `target` in one batch
/// with no limit: untouched when it is there already, else pruned through.
pub open spec fn shard_through(db: DbView, progress: Version, target: Version) -> DbView {
    if progress == target {
        db
    } else {
        pruned_through(db, progress as int, target)
    }
}

/// The versions at which pruning from `start` stops on its way to `r`:
/// `start`, then the version of each entry of the metadata index stale
/// since a version after `start` and up to `r`, in index order.
pub open spec fn checkpoints(s: Seq<StaleNodeIndexView>, start: Version, r: Version) -> Seq<Version> {
    seq![start] + s.subrange(seek_position(s, start + 1), seek_position(s, r + 1)).map_values(
        |e: StaleNodeIndexView| e.stale_since_version,
    )
}

/// A shard that was at `progress`, after it is brought, one batch at a
/// time, to each of the `stops` in turn.
pub open spec fn shard_through_stops(
    db: DbView,
    progress: Version,
    stops: Seq<Version>,
    batch_size: int,
) -> DbView
    decreases stops.len(),
{
    if stops.len() == 0 {
        db
    } else {
        let before = shard_through_stops(db, progress, stops.drop_last(), batch_size);
        let at = if stops.len() == 1 {
            progress
        } else {
            stops[stops.len() - 2]
        };
        pruned_shard(before, at, stops.last(), batch_size)
    }
}

/// Stopping again at the version a shard is at changes nothing.
pub proof fn lemma_stops_repeat(
    db: DbView,
    progress: Version,
    stops: Seq<Version>,
    more: Seq<Version>,
    v: Version,
    batch_size: int,
)
    requires
        stops.len() >= 1,
        more.len() >= 1,
        forall|j: int| 0 <= j < more.len() ==> more[j] == v,
    ensures
        shard_through_stops(db, progress, stops + more, batch_size) == pruned_shard(
            shard_through_stops(db, progress, stops, batch_size),
            stops.last(),
            v,
            batch_size,
        ),
    decreases more.len(),
{
    let all = stops + more;
    assert(all.drop_last() =~= stops + more.drop_last());
    if more.len() == 1 {
        assert(all.drop_last() =~= stops);
    } else {
        lemma_stops_repeat(db, progress, stops, more.drop_last(), v, batch_size);
        assert(all[all.len() - 2] == v);
    }
}

/// The stops up to `tvb` are the stops up to `min` followed by the entries
/// stale since `tvb`, when nothing became stale in between.
pub proof fn lemma_checkpoints_step(
    s0: Seq<StaleNodeIndexView>,
    min0: Version,
    min: Version,
    tvb: Version,
)
    requires
        sorted_by_version(s0),
        min0 <= min <= tvb,
        no_version_in(s0, min + 1, tvb - 1),
        min == min0 || has_version(s0, min as int),
    ensures
        checkpoints(s0, min0, tvb) == checkpoints(s0, min0, min) + s0.subrange(
            seek_position(s0, min + 1),
            seek_position(s0, tvb + 1),
        ).map_values(|e: StaleNodeIndexView| e.stale_since_version),
        forall|j: int|
            seek_position(s0, min + 1) <= j < seek_position(s0, tvb + 1) ==> #[trigger] s0[j].stale_since_version
                == tvb,
        checkpoints(s0, min0, min).last() == min,
        0 <= seek_position(s0, min + 1) <= seek_position(s0, tvb + 1) <= s0.len(),
        has_version(s0, tvb as int) && tvb > min ==> seek_position(s0, min + 1) < seek_position(
            s0,
            tvb + 1,
        ),
{
    lemma_seek_position(s0, min0 + 1);
    lemma_seek_position(s0, min + 1);
    lemma_seek_position(s0, tvb + 1);
    let a = seek_position(s0, min0 + 1);
    let b = seek_position(s0, min + 1);
    let c = seek_position(s0, tvb + 1);
    if b < a {
        assert(s0[b].stale_since_version >= min + 1);
    }
    if c < b {
        assert(s0[c].stale_since_version >= tvb + 1);
    }
    let f = |e: StaleNodeIndexView| e.stale_since_version;
    assert(s0.subrange(a, c) =~= s0.subrange(a, b) + s0.subrange(b, c));
    assert(s0.subrange(a, c).map_values(f) =~= s0.subrange(a, b).map_values(f) + s0.subrange(
        b,
        c,
    ).map_values(f));
    assert(checkpoints(s0, min0, tvb) =~= checkpoints(s0, min0, min) + s0.subrange(b, c).map_values(
        f,
    ));
    assert forall|j: int| b <= j < c implies #[trigger] s0[j].stale_since_version == tvb by {
        assert(!(min + 1 <= s0[j].stale_since_version <= tvb - 1));
    }
    if has_version(s0, min as int) && min > min0 {
        let i = choose|i: int| 0 <= i < s0.len() && #[trigger] s0[i].stale_since_version == min;
        assert(a <= i < b);
        assert(s0[i].stale_since_version <= s0[b - 1].stale_since_version);
        assert(checkpoints(s0, min0, min).last() == s0[b - 1].stale_since_version);
    } else if a < b {
        assert(s0[a].stale_since_version <= min);
        assert(checkpoints(s0, min0, min).last() == s0[b - 1].stale_since_version);
    }
    if has_version(s0, tvb as int) && tvb > min {
        let i = choose|i: int| 0 <= i < s0.len() && #[trigger] s0[i].stale_since_version == tvb;
        assert(b <= i < c);
    }
}

} // verus!
