//! The tables of a database that the state Merkle pruner reads and writes:
//! the stale node index, the nodes of the tree and the pruner's progress
//! entry in the metadata table, together with batches of writes to them.
use vstd::prelude::*;
use crate::node::{
    index_lt, index_views, key_views, lemma_index_lt, NodeKey, NodeKeyView, StaleNodeIndex,
    StaleNodeIndexView, Version,
};

verus! {

/// Entries are sorted by the version from which they are stale.
pub open spec fn sorted_by_version(s: Seq<StaleNodeIndexView>) -> bool {
    forall|i: int, j: int|
        0 <= i <= j < s.len() ==> s[i].stale_since_version <= s[j].stale_since_version
}

/// Entries are in strictly ascending key order, so none occurs twice.
pub open spec fn keys_ascending(s: Seq<StaleNodeIndexView>) -> bool {
    forall|i: int, j: int| 0 <= i < j < s.len() ==> index_lt(s[i], s[j])
}

/// An index in key order is sorted by version.
pub proof fn lemma_keys_ascending_sorted(s: Seq<StaleNodeIndexView>)
    requires
        keys_ascending(s),
    ensures
        sorted_by_version(s),
{
    assert forall|i: int, j: int| 0 <= i <= j < s.len() implies s[i].stale_since_version
        <= s[j].stale_since_version by {
        if i < j {
            lemma_index_lt(s[i], s[j], s[j]);
        }
    }
}

/// The number of entries whose key comes before `key`: where `key` belongs
/// in an index in key order.
pub open spec fn key_position(s: Seq<StaleNodeIndexView>, key: StaleNodeIndexView) -> int
    decreases s.len(),
{
    if s.len() == 0 {
        0
    } else if index_lt(s.last(), key) {
        s.len() as int
    } else {
        key_position(s.drop_last(), key)
    }
}

/// In an index in key order, the entries before the key's position come
/// before the key and the others do not.
pub proof fn lemma_key_position(s: Seq<StaleNodeIndexView>, key: StaleNodeIndexView)
    requires
        keys_ascending(s),
    ensures
        0 <= key_position(s, key) <= s.len(),
        forall|i: int| 0 <= i < key_position(s, key) ==> index_lt(s[i], key),
        forall|i: int| key_position(s, key) <= i < s.len() ==> !index_lt(s[i], key),
    decreases s.len(),
{
    if s.len() > 0 {
        let t = s.drop_last();
        assert(keys_ascending(t));
        lemma_key_position(t, key);
        if index_lt(s.last(), key) {
            assert forall|i: int| 0 <= i < s.len() implies index_lt(s[i], key) by {
                if i < s.len() - 1 {
                    lemma_index_lt(s[i], s.last(), key);
                }
            }
        } else {
            assert forall|i: int| 0 <= i < key_position(s, key) implies index_lt(s[i], key) by {
                assert(s[i] == t[i]);
            }
            assert forall|i: int| key_position(s, key) <= i < s.len() implies !index_lt(
                s[i],
                key,
            ) by {
                if i < s.len() - 1 {
                    assert(s[i] == t[i]);
                }
            }
        }
    }
}

/// Putting a key that is not there at its position keeps an index in key
/// order.
pub proof fn lemma_insert_at_key_position(s: Seq<StaleNodeIndexView>, key: StaleNodeIndexView)
    requires
        keys_ascending(s),
        !s.contains(key),
    ensures
        keys_ascending(s.insert(key_position(s, key), key)),
        sorted_by_version(s.insert(key_position(s, key), key)),
        s.insert(key_position(s, key), key).contains(key),
{
    lemma_key_position(s, key);
    let p = key_position(s, key);
    let t = s.insert(p, key);
    assert(t[p] == key);
    assert forall|i: int, j: int| 0 <= i < j < t.len() implies index_lt(t[i], t[j]) by {
        if j < p {
        } else if i > p {
            assert(t[i] == s[i - 1] && t[j] == s[j - 1]);
        } else if i < p && j == p {
        } else if i < p && j > p {
            assert(t[j] == s[j - 1]);
        } else {
            assert(t[j] == s[j - 1]);
            assert(s[j - 1] != key);
            lemma_index_lt(key, s[j - 1], key);
        }
    }
    lemma_keys_ascending_sorted(t);
}

/// The number of entries that became stale before `version`: where a seek
/// to `version` positions an iterator over a sorted index.
pub open spec fn seek_position(s: Seq<StaleNodeIndexView>, version: int) -> int
    decreases s.len(),
{
    if s.len() == 0 {
        0
    } else if s.last().stale_since_version < version {
        s.len() as int
    } else {
        seek_position(s.drop_last(), version)
    }
}

/// A seek lands after every entry older than `version` and before every
/// other one.
pub proof fn lemma_seek_position(s: Seq<StaleNodeIndexView>, version: int)
    requires
        sorted_by_version(s),
    ensures
        0 <= seek_position(s, version) <= s.len(),
        forall|i: int| 0 <= i < seek_position(s, version) ==> s[i].stale_since_version < version,
        forall|i: int|
            seek_position(s, version) <= i < s.len() ==> s[i].stale_since_version >= version,
    decreases s.len(),
{
    if s.len() > 0 {
        let t = s.drop_last();
        assert(sorted_by_version(t));
        lemma_seek_position(t, version);
        if s.last().stale_since_version < version {
            assert forall|i: int| 0 <= i < s.len() implies s[i].stale_since_version < version by {
                assert(s[i].stale_since_version <= s[s.len() - 1].stale_since_version);
            }
        } else {
            assert forall|i: int| 0 <= i < seek_position(s, version) implies s[i].stale_since_version
                < version by {
                assert(s[i] == t[i]);
            }
            assert forall|i: int|
                seek_position(s, version) <= i < s.len() implies s[i].stale_since_version
                >= version by {
                if i < s.len() - 1 {
                    assert(s[i] == t[i]);
                }
            }
        }
    }
}

/// The seek position is the only position that splits a sorted index into
/// the entries older than `version` and the others.
pub proof fn lemma_seek_position_unique(s: Seq<StaleNodeIndexView>, version: int, p: int)
    requires
        sorted_by_version(s),
        0 <= p <= s.len(),
        forall|i: int| 0 <= i < p ==> s[i].stale_since_version < version,
        forall|i: int| p <= i < s.len() ==> s[i].stale_since_version >= version,
    ensures
        seek_position(s, version) == p,
{
    lemma_seek_position(s, version);
    let q = seek_position(s, version);
    if q < p {
        assert(s[q].stale_since_version < version);
    } else if p < q {
        assert(s[p].stale_since_version < version);
    }
}

/// Filtering with two predicates that agree on every element gives the same
/// sequence.
pub proof fn lemma_filter_congruent<A>(s: Seq<A>, p: spec_fn(A) -> bool, q: spec_fn(A) -> bool)
    requires
        forall|i: int| 0 <= i < s.len() ==> p(s[i]) == q(s[i]),
    ensures
        s.filter(p) == s.filter(q),
    decreases s.len(),
{
    reveal(Seq::filter);
    if s.len() > 0 {
        lemma_filter_congruent(s.drop_last(), p, q);
    }
}

/// Filtering twice is filtering once by both predicates.
pub proof fn lemma_filter_filter<A>(s: Seq<A>, p: spec_fn(A) -> bool, q: spec_fn(A) -> bool)
    ensures
        s.filter(p).filter(q) == s.filter(|x: A| p(x) && q(x)),
    decreases s.len(),
{
    reveal(Seq::filter);
    if s.len() > 0 {
        let t = s.drop_last();
        lemma_filter_filter(t, p, q);
        if p(s.last()) {
            t.filter(p).lemma_filter_push(s.last(), q);
        }
    }
}

/// Filtering keeps a sequence whose elements all pass.
pub proof fn lemma_filter_keeps_all<A>(s: Seq<A>, p: spec_fn(A) -> bool)
    requires
        forall|i: int| 0 <= i < s.len() ==> p(s[i]),
    ensures
        s.filter(p) == s,
    decreases s.len(),
{
    reveal(Seq::filter);
    if s.len() > 0 {
        lemma_filter_keeps_all(s.drop_last(), p);
        assert(s.drop_last().push(s.last()) =~= s);
    }
}

/// Filtering empties a sequence whose elements all fail.
pub proof fn lemma_filter_drops_all<A>(s: Seq<A>, p: spec_fn(A) -> bool)
    requires
        forall|i: int| 0 <= i < s.len() ==> !p(s[i]),
    ensures
        s.filter(p) == Seq::<A>::empty(),
    decreases s.len(),
{
    reveal(Seq::filter);
    if s.len() > 0 {
        lemma_filter_drops_all(s.drop_last(), p);
    }
}

/// Keeping a contiguous run of a sequence, and nothing else, gives the run.
pub proof fn lemma_filter_keeps_run<A>(s: Seq<A>, p: spec_fn(A) -> bool, lo: int, hi: int)
    requires
        0 <= lo <= hi <= s.len(),
        forall|i: int| 0 <= i < lo ==> !p(s[i]),
        forall|i: int| lo <= i < hi ==> p(s[i]),
        forall|i: int| hi <= i < s.len() ==> !p(s[i]),
    ensures
        s.filter(p) == s.subrange(lo, hi),
{
    let a = s.subrange(0, lo);
    let b = s.subrange(lo, hi);
    let c = s.subrange(hi, s.len() as int);
    assert(s =~= a + b + c);
    Seq::filter_distributes_over_add(a + b, c, p);
    Seq::filter_distributes_over_add(a, b, p);
    lemma_filter_drops_all(a, p);
    lemma_filter_keeps_all(b, p);
    lemma_filter_drops_all(c, p);
    assert(Seq::<A>::empty() + b + Seq::<A>::empty() =~= b);
}

/// Filtering out a contiguous run of a sequence, and nothing else, cuts the
/// run out.
pub proof fn lemma_filter_cuts_run<A>(s: Seq<A>, p: spec_fn(A) -> bool, lo: int, hi: int)
    requires
        0 <= lo <= hi <= s.len(),
        forall|i: int| 0 <= i < lo ==> p(s[i]),
        forall|i: int| lo <= i < hi ==> !p(s[i]),
        forall|i: int| hi <= i < s.len() ==> p(s[i]),
    ensures
        s.filter(p) == s.subrange(0, lo) + s.subrange(hi, s.len() as int),
{
    let a = s.subrange(0, lo);
    let b = s.subrange(lo, hi);
    let c = s.subrange(hi, s.len() as int);
    assert(s =~= a + b + c);
    Seq::filter_distributes_over_add(a + b, c, p);
    Seq::filter_distributes_over_add(a, b, p);
    lemma_filter_keeps_all(a, p);
    lemma_filter_drops_all(b, p);
    lemma_filter_keeps_all(c, p);
    assert(a + Seq::<A>::empty() =~= a);
}

/// What a database holds for the pruner.
#[verifier::ext_equal]
pub struct DbView {
    /// The stale node index, in iteration order.
    pub stale_node_indices: Seq<StaleNodeIndexView>,
    /// The keys of the nodes of the tree that the database holds.
    pub nodes: Seq<NodeKeyView>,
    /// The pruner's progress entry of the metadata table, if there is one.
    pub progress: Option<Version>,
}

/// What a batch of writes holds.
#[verifier::ext_equal]
pub struct SchemaBatchView {
    pub deleted_stale_node_indices: Seq<StaleNodeIndexView>,
    pub deleted_nodes: Seq<NodeKeyView>,
    pub progress: Option<Version>,
}

impl DbView {
    /// The database is well formed: its index is in strictly ascending key
    /// order, hence sorted by version, and its length fits in a `usize`.
    pub open spec fn wf(self) -> bool {
        &&& keys_ascending(self.stale_node_indices)
        &&& sorted_by_version(self.stale_node_indices)
        &&& self.stale_node_indices.len() <= usize::MAX
    }

    /// The database after a batch is written to it: the deleted entries and
    /// nodes are gone and the progress entry is the one the batch put, if it
    /// put one.
    pub open spec fn apply(self, batch: SchemaBatchView) -> DbView {
        DbView {
            stale_node_indices: self.stale_node_indices.filter(
                |e: StaleNodeIndexView| !batch.deleted_stale_node_indices.contains(e),
            ),
            nodes: self.nodes.filter(|k: NodeKeyView| !batch.deleted_nodes.contains(k)),
            progress: if batch.progress is Some {
                batch.progress
            } else {
                self.progress
            },
        }
    }

    /// The database after an entry is put into its index: at its key's
    /// position, unless it is there already.
    pub open spec fn with_stale_node_index(self, index: StaleNodeIndexView) -> DbView {
        DbView {
            stale_node_indices: if self.stale_node_indices.contains(index) {
                self.stale_node_indices
            } else {
                self.stale_node_indices.insert(key_position(self.stale_node_indices, index), index)
            },
            ..self
        }
    }

    /// The database after a node is put, unless it is there already.
    pub open spec fn with_node(self, key: NodeKeyView) -> DbView {
        DbView {
            nodes: if self.nodes.contains(key) {
                self.nodes
            } else {
                self.nodes.push(key)
            },
            ..self
        }
    }

    /// The progress the pruner reads from the database: the stored one, or
    /// 0 where none is stored.
    pub open spec fn progress_or_zero(self) -> Version {
        match self.progress {
            Some(v) => v,
            None => 0,
        }
    }
}

impl SchemaBatchView {
    /// A batch that writes nothing.
    pub open spec fn empty() -> SchemaBatchView {
        SchemaBatchView {
            deleted_stale_node_indices: Seq::empty(),
            deleted_nodes: Seq::empty(),
            progress: None,
        }
    }
}

/// A database, as far as the pruner reads and writes it. The stale node
/// index is held in iteration order, the order of its keys: by the version
/// from which an entry is stale, then by the node's version, then by the
/// node's nibble path.
pub struct Db {
    stale_node_indices: Vec<StaleNodeIndex>,
    nodes: Vec<NodeKey>,
    progress: Option<Version>,
}

/// A batch of writes, written to a database at once.
pub struct SchemaBatch {
    deleted_stale_node_indices: Vec<StaleNodeIndex>,
    deleted_nodes: Vec<NodeKey>,
    progress: Option<Version>,
}

impl View for Db {
    type V = DbView;

    closed spec fn view(&self) -> DbView {
        DbView {
            stale_node_indices: index_views(self.stale_node_indices@),
            nodes: key_views(self.nodes@),
            progress: self.progress,
        }
    }
}

impl View for SchemaBatch {
    type V = SchemaBatchView;

    closed spec fn view(&self) -> SchemaBatchView {
        SchemaBatchView {
            deleted_stale_node_indices: index_views(self.deleted_stale_node_indices@),
            deleted_nodes: key_views(self.deleted_nodes@),
            progress: self.progress,
        }
    }
}

/// Tells whether an entry is in a list.
fn contains_index(list: &Vec<StaleNodeIndex>, e: &StaleNodeIndex) -> (r: bool)
    ensures
        r == index_views(list@).contains(e@),
{
    let mut i: usize = 0;
    while i < list.len()
        invariant
            i <= list.len(),
            forall|j: int| 0 <= j < i ==> list@[j]@ != e@,
        decreases list.len() - i,
    {
        if list[i].same_as(e) {
            assert(index_views(list@)[i as int] == e@);
            return true;
        }
        i = i + 1;
    }
    proof {
        if index_views(list@).contains(e@) {
            let j = choose|j: int| 0 <= j < index_views(list@).len() && index_views(list@)[j] == e@;
            assert(list@[j]@ == e@);
        }
    }
    false
}

/// Tells whether a key is in a list.
fn contains_key(list: &Vec<NodeKey>, k: &NodeKey) -> (r: bool)
    ensures
        r == key_views(list@).contains(k@),
{
    let mut i: usize = 0;
    while i < list.len()
        invariant
            i <= list.len(),
            forall|j: int| 0 <= j < i ==> list@[j]@ != k@,
        decreases list.len() - i,
    {
        if list[i].same_as(k) {
            assert(key_views(list@)[i as int] == k@);
            return true;
        }
        i = i + 1;
    }
    proof {
        if key_views(list@).contains(k@) {
            let j = choose|j: int| 0 <= j < key_views(list@).len() && key_views(list@)[j] == k@;
            assert(list@[j]@ == k@);
        }
    }
    false
}

impl SchemaBatch {
    /// A batch that writes nothing.
    pub fn new() -> (r: SchemaBatch)
        ensures
            r@ == SchemaBatchView::empty(),
    {
        let r = SchemaBatch {
            deleted_stale_node_indices: Vec::new(),
            deleted_nodes: Vec::new(),
            progress: None,
        };
        assert(r@ =~= SchemaBatchView::empty());
        r
    }

    /// Adds the deletion of an entry of the stale node index.
    pub fn delete_stale_node_index(&mut self, index: StaleNodeIndex)
        ensures
            final(self)@ == (SchemaBatchView {
                deleted_stale_node_indices: old(self)@.deleted_stale_node_indices.push(index@),
                ..old(self)@
            }),
    {
        self.deleted_stale_node_indices.push(index);
        assert(index_views(self.deleted_stale_node_indices@) =~= index_views(
            old(self).deleted_stale_node_indices@,
        ).push(index@));
    }

    /// Adds the deletion of a node of the tree.
    pub fn delete_node(&mut self, key: NodeKey)
        ensures
            final(self)@ == (SchemaBatchView {
                deleted_nodes: old(self)@.deleted_nodes.push(key@),
                ..old(self)@
            }),
    {
        self.deleted_nodes.push(key);
        assert(key_views(self.deleted_nodes@) =~= key_views(old(self).deleted_nodes@).push(key@));
    }

    /// Puts the pruner's progress entry of the metadata table.
    pub fn put_progress(&mut self, version: Version)
        ensures
            final(self)@ == (SchemaBatchView { progress: Some(version), ..old(self)@ }),
    {
        self.progress = Some(version);
    }
}

impl Db {
    /// An empty database.
    pub fn new() -> (r: Db)
        ensures
            r@ == (DbView { stale_node_indices: Seq::empty(), nodes: Seq::empty(), progress: None }),
            r@.wf(),
    {
        let r = Db { stale_node_indices: Vec::new(), nodes: Vec::new(), progress: None };
        assert(r@ =~= (DbView {
            stale_node_indices: Seq::empty(),
            nodes: Seq::empty(),
            progress: None,
        }));
        r
    }

    /// The pruner's progress entry of the metadata table, if there is one.
    pub fn get_progress(&self) -> (r: Option<Version>)
        ensures
            r == self@.progress,
    {
        self.progress
    }

    /// The number of entries in the stale node index.
    pub fn num_stale_node_indices(&self) -> (r: usize)
        ensures
            r == self@.stale_node_indices.len(),
    {
        self.stale_node_indices.len()
    }

    /// The entry at a position of the iteration order.
    pub fn stale_node_index_at(&self, pos: usize) -> (r: &StaleNodeIndex)
        requires
            pos < self@.stale_node_indices.len(),
        ensures
            r@ == self@.stale_node_indices[pos as int],
    {
        &self.stale_node_indices[pos]
    }

    /// The number of nodes of the tree the database holds.
    pub fn num_nodes(&self) -> (r: usize)
        ensures
            r == self@.nodes.len(),
    {
        self.nodes.len()
    }

    /// Tells whether the database holds a node.
    pub fn contains_node(&self, key: &NodeKey) -> (r: bool)
        ensures
            r == self@.nodes.contains(key@),
    {
        contains_key(&self.nodes, key)
    }

    /// Tells whether the database holds an entry of the stale node index.
    pub fn contains_stale_node_index(&self, index: &StaleNodeIndex) -> (r: bool)
        ensures
            r == self@.stale_node_indices.contains(index@),
    {
        contains_index(&self.stale_node_indices, index)
    }

    /// Positions an iterator over the stale node index at the first entry
    /// that is stale since `version` or later.
    pub fn seek(&self, version: Version) -> (r: usize)
        requires
            self@.wf(),
        ensures
            r == seek_position(self@.stale_node_indices, version as int),
    {
        let ghost s = self@.stale_node_indices;
        let mut i: usize = 0;
        while i < self.stale_node_indices.len()
            invariant
                s == self@.stale_node_indices,
                i <= s.len(),
                forall|j: int| 0 <= j < i ==> s[j].stale_since_version < version,
                sorted_by_version(s),
            ensures
                i <= s.len(),
                forall|j: int| 0 <= j < i ==> s[j].stale_since_version < version,
                i < s.len() ==> s[i as int].stale_since_version >= version,
            decreases s.len() - i,
        {
            if self.stale_node_indices[i].stale_since_version >= version {
                break;
            }
            i = i + 1;
        }
        proof {
            if i < s.len() {
                assert forall|j: int| i <= j < s.len() implies s[j].stale_since_version
                    >= version by {
                    assert(s[i as int].stale_since_version <= s[j].stale_since_version);
                }
            }
            lemma_seek_position_unique(s, version as int, i as int);
        }
        i
    }

    /// Adds an entry to the stale node index, at its key's position; an
    /// entry already there stays.
    pub fn put_stale_node_index(&mut self, index: StaleNodeIndex)
        requires
            old(self)@.wf(),
        ensures
            final(self)@.wf(),
            final(self)@ == old(self)@.with_stale_node_index(index@),
    {
        let ghost s = old(self)@.stale_node_indices;
        let n = self.stale_node_indices.len();
        let mut i: usize = 0;
        while i < n
            invariant
                s == self@.stale_node_indices,
                n == s.len(),
                self.stale_node_indices == old(self).stale_node_indices,
                self.nodes == old(self).nodes,
                self.progress == old(self).progress,
                i <= s.len(),
                forall|j: int| 0 <= j < i ==> index_lt(s[j], index@),
            ensures
                i <= s.len(),
                self.stale_node_indices == old(self).stale_node_indices,
                self.nodes == old(self).nodes,
                self.progress == old(self).progress,
                forall|j: int| 0 <= j < i ==> index_lt(s[j], index@),
                i < s.len() ==> !index_lt(s[i as int], index@),
            decreases s.len() - i,
        {
            if !self.stale_node_indices[i].precedes(&index) {
                break;
            }
            i = i + 1;
        }
        proof {
            lemma_key_position(s, index@);
            let p = key_position(s, index@);
            if i < p {
                assert(!index_lt(s[i as int], index@));
            } else if p < i {
                assert(index_lt(s[p], index@));
            }
        }
        if i < n && self.stale_node_indices[i].same_as(&index) {
            assert(s.contains(index@));
            return;
        }
        proof {
            if s.contains(index@) {
                let j = choose|j: int| 0 <= j < s.len() && s[j] == index@;
                lemma_index_lt(s[j], s[j], s[j]);
                if j > i {
                    assert(index_lt(s[i as int], s[j]));
                }
            }
            lemma_insert_at_key_position(s, index@);
        }
        self.stale_node_indices.insert(i, index);
        let _ = self.stale_node_indices.len();
        proof {
            assert(index_views(self.stale_node_indices@) =~= s.insert(i as int, index@));
        }
    }

    /// Adds a node of the tree; a node already there is not added again.
    pub fn put_node(&mut self, key: NodeKey)
        ensures
            final(self)@ == old(self)@.with_node(key@),
    {
        if !contains_key(&self.nodes, &key) {
            self.nodes.push(key);
            assert(key_views(self.nodes@) =~= key_views(old(self).nodes@).push(key@));
        }
    }

    /// Writes a batch.
    pub fn write_schemas(&mut self, batch: SchemaBatch)
        requires
            old(self)@.wf(),
        ensures
            final(self)@ == old(self)@.apply(batch@),
            final(self)@.wf(),
    {
        let ghost s = old(self)@.stale_node_indices;
        let ghost del = batch@.deleted_stale_node_indices;
        let ghost p = |e: StaleNodeIndexView| !del.contains(e);
        let mut kept: Vec<StaleNodeIndex> = Vec::new();
        let mut i: usize = 0;
        while i < self.stale_node_indices.len()
            invariant
                s == self@.stale_node_indices,
                sorted_by_version(s),
                del == index_views(batch.deleted_stale_node_indices@),
                p == (|e: StaleNodeIndexView| !del.contains(e)),
                i <= s.len(),
                index_views(kept@) == s.subrange(0, i as int).filter(p),
                forall|k: int, j: int|
                    0 <= k < kept@.len() && i <= j < s.len() ==> kept@[k].stale_since_version
                        <= s[j].stale_since_version,
                sorted_by_version(index_views(kept@)),
                keys_ascending(s),
                forall|k: int, j: int|
                    0 <= k < kept@.len() && i <= j < s.len() ==> index_lt(kept@[k]@, s[j]),
                keys_ascending(index_views(kept@)),
            decreases s.len() - i,
        {
            let e = &self.stale_node_indices[i];
            proof {
                assert(s.subrange(0, i + 1) =~= s.subrange(0, i as int).push(s[i as int]));
                s.subrange(0, i as int).lemma_filter_push(s[i as int], p);
            }
            if !contains_index(&batch.deleted_stale_node_indices, e) {
                let c = e.duplicate();
                kept.push(c);
                assert(index_views(kept@) =~= s.subrange(0, i as int).filter(p).push(s[i as int]));
            }
            i = i + 1;
        }
        assert(s.subrange(0, s.len() as int) =~= s);
        let ghost ns = old(self)@.nodes;
        let ghost ndel = batch@.deleted_nodes;
        let ghost q = |k: NodeKeyView| !ndel.contains(k);
        let mut kept_nodes: Vec<NodeKey> = Vec::new();
        let mut i: usize = 0;
        while i < self.nodes.len()
            invariant
                ns == key_views(self.nodes@),
                ndel == key_views(batch.deleted_nodes@),
                q == (|k: NodeKeyView| !ndel.contains(k)),
                i <= ns.len(),
                key_views(kept_nodes@) == ns.subrange(0, i as int).filter(q),
            decreases ns.len() - i,
        {
            let k = &self.nodes[i];
            proof {
                assert(ns.subrange(0, i + 1) =~= ns.subrange(0, i as int).push(ns[i as int]));
                ns.subrange(0, i as int).lemma_filter_push(ns[i as int], q);
            }
            if !contains_key(&batch.deleted_nodes, k) {
                let c = k.duplicate();
                kept_nodes.push(c);
                assert(key_views(kept_nodes@) =~= ns.subrange(0, i as int).filter(q).push(
                    ns[i as int],
                ));
            }
            i = i + 1;
        }
        assert(ns.subrange(0, ns.len() as int) =~= ns);
        self.stale_node_indices = kept;
        self.nodes = kept_nodes;
        if batch.progress.is_some() {
            self.progress = batch.progress;
        }
        assert(self@ =~= old(self)@.apply(batch@));
    }
}

} // verus!
