//! Keys of the Jellyfish Merkle tree and the index of nodes that became stale.
use vstd::prelude::*;

verus! {

/// A version of the ledger.
pub type Version = u64;

/// What a node key is: the version at which the node was written and the
/// nibble path from the root of the tree to the node, one nibble per
/// element.
#[verifier::ext_equal]
pub struct NodeKeyView {
    pub version: Version,
    pub nibble_path: Seq<u8>,
}

/// The key of a node of the Jellyfish Merkle tree.
pub struct NodeKey {
    version: Version,
    nibble_path: Vec<u8>,
}

impl View for NodeKey {
    type V = NodeKeyView;

    closed spec fn view(&self) -> NodeKeyView {
        NodeKeyView { version: self.version, nibble_path: self.nibble_path@ }
    }
}

/// Copies a byte vector element by element.
fn copy_bytes(bytes: &Vec<u8>) -> (r: Vec<u8>)
    ensures
        r@ == bytes@,
{
    let mut r: Vec<u8> = Vec::new();
    let mut i: usize = 0;
    while i < bytes.len()
        invariant
            i <= bytes.len(),
            r@ == bytes@.subrange(0, i as int),
        decreases bytes.len() - i,
    {
        r.push(bytes[i]);
        i = i + 1;
        assert(r@ =~= bytes@.subrange(0, i as int));
    }
    assert(r@ =~= bytes@);
    r
}

/// Tells whether two byte vectors hold the same bytes.
fn same_bytes(a: &Vec<u8>, b: &Vec<u8>) -> (r: bool)
    ensures
        r == (a@ == b@),
{
    if a.len() != b.len() {
        return false;
    }
    let mut i: usize = 0;
    while i < a.len()
        invariant
            a.len() == b.len(),
            i <= a.len(),
            forall|j: int| 0 <= j < i ==> a@[j] == b@[j],
        decreases a.len() - i,
    {
        if a[i] != b[i] {
            return false;
        }
        i = i + 1;
    }
    assert(a@ =~= b@);
    true
}

impl NodeKey {
    /// A node key from its version and nibble path.
    pub fn new(version: Version, nibble_path: Vec<u8>) -> (r: NodeKey)
        ensures
            r@ == (NodeKeyView { version, nibble_path: nibble_path@ }),
    {
        NodeKey { version, nibble_path }
    }

    /// The version at which the node was written.
    pub fn version(&self) -> (r: Version)
        ensures
            r == self@.version,
    {
        self.version
    }

    /// The nibble path from the root to the node.
    pub fn nibble_path(&self) -> (r: &Vec<u8>)
        ensures
            r@ == self@.nibble_path,
    {
        &self.nibble_path
    }

    /// Tells whether two keys name the same node.
    pub fn same_as(&self, other: &NodeKey) -> (r: bool)
        ensures
            r == (self@ == other@),
    {
        self.version == other.version && same_bytes(&self.nibble_path, &other.nibble_path)
    }

    /// A key equal to this one.
    pub fn duplicate(&self) -> (r: NodeKey)
        ensures
            r@ == self@,
    {
        NodeKey { version: self.version, nibble_path: copy_bytes(&self.nibble_path) }
    }
}

/// What an entry of the stale node index is.
#[verifier::ext_equal]
pub struct StaleNodeIndexView {
    pub stale_since_version: Version,
    pub node_key: NodeKeyView,
}

/// An entry of the stale node index: the node `node_key` is no longer part
/// of the tree from version `stale_since_version` on.
pub struct StaleNodeIndex {
    pub stale_since_version: Version,
    pub node_key: NodeKey,
}

impl View for StaleNodeIndex {
    type V = StaleNodeIndexView;

    open spec fn view(&self) -> StaleNodeIndexView {
        StaleNodeIndexView {
            stale_since_version: self.stale_since_version,
            node_key: self.node_key@,
        }
    }
}

impl StaleNodeIndex {
    /// Tells whether two entries are equal.
    pub fn same_as(&self, other: &StaleNodeIndex) -> (r: bool)
        ensures
            r == (self@ == other@),
    {
        self.stale_since_version == other.stale_since_version && self.node_key.same_as(
            &other.node_key,
        )
    }

    /// An entry equal to this one.
    pub fn duplicate(&self) -> (r: StaleNodeIndex)
        ensures
            r@ == self@,
    {
        StaleNodeIndex {
            stale_since_version: self.stale_since_version,
            node_key: self.node_key.duplicate(),
        }
    }
}

/// Lexicographic order of two nibble sequences of one length.
pub open spec fn lex_lt(a: Seq<u8>, b: Seq<u8>) -> bool
    decreases a.len(),
{
    if a.len() == 0 || b.len() == 0 {
        false
    } else if a[0] != b[0] {
        a[0] < b[0]
    } else {
        lex_lt(a.drop_first(), b.drop_first())
    }
}

/// The order of nibble paths in the database: shorter paths first, paths of
/// one length by their nibbles.
pub open spec fn path_lt(a: Seq<u8>, b: Seq<u8>) -> bool {
    a.len() < b.len() || (a.len() == b.len() && lex_lt(a, b))
}

/// The order of node keys in the database: by version, then by path.
pub open spec fn node_key_lt(a: NodeKeyView, b: NodeKeyView) -> bool {
    a.version < b.version || (a.version == b.version && path_lt(a.nibble_path, b.nibble_path))
}

/// The order of the keys of the stale node index in the database: by the
/// version since which the node is stale, then by the node's key.
pub open spec fn index_lt(a: StaleNodeIndexView, b: StaleNodeIndexView) -> bool {
    a.stale_since_version < b.stale_since_version || (a.stale_since_version
        == b.stale_since_version && node_key_lt(a.node_key, b.node_key))
}

/// Lexicographic order is irreflexive, transitive, and total on sequences
/// of one length.
pub proof fn lemma_lex_lt(a: Seq<u8>, b: Seq<u8>, c: Seq<u8>)
    requires
        a.len() == b.len() == c.len(),
    ensures
        !lex_lt(a, a),
        lex_lt(a, b) ==> !lex_lt(b, a),
        lex_lt(a, b) && lex_lt(b, c) ==> lex_lt(a, c),
        a != b ==> lex_lt(a, b) || lex_lt(b, a),
    decreases a.len(),
{
    if a.len() > 0 {
        lemma_lex_lt(a.drop_first(), b.drop_first(), c.drop_first());
        if a[0] == b[0] && a.drop_first() == b.drop_first() {
            assert forall|i: int| 0 <= i < a.len() implies a[i] == b[i] by {
                if i > 0 {
                    assert(a[i] == a.drop_first()[i - 1]);
                    assert(b[i] == b.drop_first()[i - 1]);
                }
            }
            assert(a =~= b);
        }
    } else {
        assert(a =~= b);
    }
}

/// The order of the index's keys is irreflexive, transitive and total.
pub proof fn lemma_index_lt(a: StaleNodeIndexView, b: StaleNodeIndexView, c: StaleNodeIndexView)
    ensures
        !index_lt(a, a),
        index_lt(a, b) ==> !index_lt(b, a),
        index_lt(a, b) && index_lt(b, c) ==> index_lt(a, c),
        a != b ==> index_lt(a, b) || index_lt(b, a),
        index_lt(a, b) ==> a.stale_since_version <= b.stale_since_version,
{
    let pa = a.node_key.nibble_path;
    let pb = b.node_key.nibble_path;
    let pc = c.node_key.nibble_path;
    lemma_lex_lt(pa, pa, pa);
    if pa.len() == pb.len() {
        lemma_lex_lt(pa, pb, pb);
        lemma_lex_lt(pb, pa, pa);
        if pb.len() == pc.len() {
            lemma_lex_lt(pa, pb, pc);
        }
    }
    if a != b && !index_lt(a, b) && !index_lt(b, a) {
        assert(pa == pb);
        assert(a.node_key =~= b.node_key);
        assert(a =~= b);
    }
}

/// Compares two nibble sequences of one length lexicographically.
fn lex_less(a: &Vec<u8>, b: &Vec<u8>) -> (r: bool)
    requires
        a@.len() == b@.len(),
    ensures
        r == lex_lt(a@, b@),
{
    let n = a.len();
    let mut i: usize = 0;
    assert(a@.subrange(0, n as int) =~= a@);
    assert(b@.subrange(0, n as int) =~= b@);
    while i < n
        invariant
            n == a@.len() == b@.len(),
            i <= n,
            lex_lt(a@, b@) == lex_lt(a@.subrange(i as int, n as int), b@.subrange(i as int, n as int)),
        decreases n - i,
    {
        let ghost sa = a@.subrange(i as int, n as int);
        let ghost sb = b@.subrange(i as int, n as int);
        if a[i] != b[i] {
            assert(sa[0] == a@[i as int] && sb[0] == b@[i as int]);
            return a[i] < b[i];
        }
        assert(sa.drop_first() =~= a@.subrange(i + 1, n as int));
        assert(sb.drop_first() =~= b@.subrange(i + 1, n as int));
        i = i + 1;
    }
    false
}

impl NodeKey {
    /// Tells whether this key comes before `other` in the database.
    pub fn precedes(&self, other: &NodeKey) -> (r: bool)
        ensures
            r == node_key_lt(self@, other@),
    {
        if self.version != other.version {
            return self.version < other.version;
        }
        if self.nibble_path.len() != other.nibble_path.len() {
            return self.nibble_path.len() < other.nibble_path.len();
        }
        lex_less(&self.nibble_path, &other.nibble_path)
    }
}

impl StaleNodeIndex {
    /// Tells whether this entry comes before `other` in the database.
    pub fn precedes(&self, other: &StaleNodeIndex) -> (r: bool)
        ensures
            r == index_lt(self@, other@),
    {
        if self.stale_since_version != other.stale_since_version {
            return self.stale_since_version < other.stale_since_version;
        }
        self.node_key.precedes(&other.node_key)
    }
}

/// The views of a sequence of entries.
pub open spec fn index_views(s: Seq<StaleNodeIndex>) -> Seq<StaleNodeIndexView> {
    s.map_values(|e: StaleNodeIndex| e@)
}

/// The views of a sequence of keys.
pub open spec fn key_views(s: Seq<NodeKey>) -> Seq<NodeKeyView> {
    s.map_values(|k: NodeKey| k@)
}

} // verus!
