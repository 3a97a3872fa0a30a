//! A fixed-fanout B-tree mapping `u64` keys to `u64` values.
//!
//! A node holds at most `2 * M - 1` keys. Inserting into a full node splits
//! it: the lower half stays, the upper half moves to a fresh right sibling,
//! and the median key is promoted into the parent, recursively up to the
//! root. Key-value pairs live in the leaves; internal nodes hold separator
//! keys that only route a search.

use vstd::pervasive::VecAdditionalExecFns;
use vstd::prelude::*;

verus! {

/// Minimum branching factor: a node holds at most `2 * M - 1` keys and an
/// internal node at most `2 * M` children.
pub const M: usize = 2;

/// Largest number of keys a node may hold once an operation has completed.
pub const MAX_NODE_KEYS: usize = 2 * M - 1;

/// One vertex of the tree. A leaf pairs each key with a value; an internal
/// node holds `keys.len() + 1` children and no values.
pub struct Node {
    pub isLeafNode: bool,
    pub keys: Vec<u64>,
    pub values: Vec<u64>,
    pub children: Vec<Node>,
}

/// The ordered index: a single owned root node.
pub struct BTree {
    pub root: Node,
}

/// `s` is strictly increasing: no duplicates, sorted.
pub open spec fn strictly_sorted(s: Seq<u64>) -> bool {
    forall|i: int, j: int| 0 <= i < j < s.len() ==> s[i] < s[j]
}

/// The number of keys in `keys` that are `<= k`. On a strictly sorted
/// sequence this is the index of the child subtree a search for `k`
/// descends into: the first `i` with `k < keys[i]`, or `keys.len()` when
/// there is no such `i`.
pub open spec fn route_idx(keys: Seq<u64>, k: u64) -> int
    decreases keys.len(),
{
    if keys.len() == 0 {
        0
    } else if keys.last() <= k {
        keys.len() as int
    } else {
        route_idx(keys.drop_last(), k)
    }
}

impl Node {
    /// Every key stored anywhere in this subtree, separators included, is
    /// strictly below `b`.
    pub open spec fn all_lt(self, b: u64) -> bool
        decreases self,
    {
        &&& forall|i: int| 0 <= i < self.keys@.len() ==> self.keys@[i] < b
        &&& forall|i: int|
            0 <= i < self.children@.len() ==> (#[trigger] self.children@[i]).all_lt(b)
    }

    /// Every key stored anywhere in this subtree, separators included, is
    /// at least `b`.
    pub open spec fn all_ge(self, b: u64) -> bool
        decreases self,
    {
        &&& forall|i: int| 0 <= i < self.keys@.len() ==> self.keys@[i] >= b
        &&& forall|i: int|
            0 <= i < self.children@.len() ==> (#[trigger] self.children@[i]).all_ge(b)
    }

    /// Well-formed except that this node itself may hold one key too many
    /// (the transient state right after an insertion, before a split).
    /// States the ordering and fan-out invariants: keys strictly increasing;
    /// an internal node has exactly `keys.len() + 1` children, each child
    /// non-empty and well formed, all keys under `children[i]` below
    /// `keys[i]` and, from the second child on, at least `keys[i - 1]`.
    pub open spec fn wf_loose(self) -> bool
        decreases self, 0int,
    {
        &&& strictly_sorted(self.keys@)
        &&& self.keys@.len() <= 2 * (M as int)
        &&& if self.isLeafNode {
            &&& self.children@.len() == 0
            &&& self.values@.len() == self.keys@.len()
        } else {
            &&& self.keys@.len() >= 1
            &&& self.values@.len() == 0
            &&& self.children@.len() == self.keys@.len() + 1
            &&& forall|i: int|
                0 <= i < self.children@.len() ==> (#[trigger] self.children@[i]).wf()
            &&& forall|i: int|
                0 <= i < self.children@.len() ==> (#[trigger] self.children@[i]).keys@.len() >= 1
            &&& forall|i: int|
                0 <= i < self.keys@.len() ==> (#[trigger] self.children@[i]).all_lt(self.keys@[i])
            &&& forall|i: int|
                1 <= i < self.children@.len() ==> (#[trigger] self.children@[i]).all_ge(
                    self.keys@[i - 1],
                )
        }
    }

    /// The tree invariant proper: `wf_loose` with the key count capped at
    /// `MAX_NODE_KEYS`.
    pub open spec fn wf(self) -> bool
        decreases self, 1int,
    {
        self.wf_loose() && self.keys@.len() <= MAX_NODE_KEYS as int
    }

    /// The key-value pairs a search can reach in this subtree, as a map.
    /// At a leaf, a key is present when routing lands just past an equal
    /// key; at an internal node the search descends into the routed child.
    pub open spec fn as_map(self) -> Map<u64, u64>
        decreases self, 2int,
    {
        if self.isLeafNode {
            Map::new(
                |k: u64|
                    {
                        let i = route_idx(self.keys@, k);
                        1 <= i <= self.keys@.len() && self.keys@[i - 1] == k && i
                            <= self.values@.len()
                    },
                |k: u64|
                    {
                        let i = route_idx(self.keys@, k);
                        if 1 <= i <= self.values@.len() {
                            self.values@[i - 1]
                        } else {
                            0u64
                        }
                    },
            )
        } else {
            Map::new(
                |k: u64|
                    {
                        let i = route_idx(self.keys@, k);
                        0 <= i < self.children@.len() && self.children@[i].as_map().contains_key(k)
                    },
                |k: u64|
                    {
                        let i = route_idx(self.keys@, k);
                        if 0 <= i < self.children@.len() {
                            self.children@[i].as_map()[k]
                        } else {
                            0u64
                        }
                    },
            )
        }
    }
}

impl Node {
    /// The height of this subtree: 0 at a leaf, one more than the first
    /// child's height otherwise. Under `balanced` every child has the same
    /// height, so this is also the depth of every leaf below.
    pub open spec fn height(self) -> nat
        decreases self,
    {
        if self.children@.len() == 0 {
            0
        } else {
            self.children@[0].height() + 1
        }
    }

    /// All leaves of this subtree sit at the same depth: every child is
    /// itself balanced and all children share one height.
    pub open spec fn balanced(self) -> bool
        decreases self,
    {
        forall|i: int|
            0 <= i < self.children@.len() ==> (#[trigger] self.children@[i]).balanced()
                && self.children@[i].height() == self.children@[0].height()
    }
}

impl Node {
    /// A bound on a subtree may be relaxed upward.
    pub proof fn lemma_all_lt_weaken(self, b1: u64, b2: u64)
        requires
            self.all_lt(b1),
            b1 <= b2,
        ensures
            self.all_lt(b2),
        decreases self,
    {
        assert forall|i: int| 0 <= i < self.children@.len() implies (#[trigger] self.children@[
            i
        ]).all_lt(b2) by {
            self.children@[i].lemma_all_lt_weaken(b1, b2);
        }
    }

    /// A bound on a subtree may be relaxed downward.
    pub proof fn lemma_all_ge_weaken(self, b1: u64, b2: u64)
        requires
            self.all_ge(b1),
            b2 <= b1,
        ensures
            self.all_ge(b2),
        decreases self,
    {
        assert forall|i: int| 0 <= i < self.children@.len() implies (#[trigger] self.children@[
            i
        ]).all_ge(b2) by {
            self.children@[i].lemma_all_ge_weaken(b1, b2);
        }
    }

    /// An internal node sits below `b` as soon as its own keys and its last
    /// child do: every earlier child is already below one of the keys.
    pub proof fn lemma_internal_all_lt(self, b: u64)
        requires
            self.wf_loose(),
            !self.isLeafNode,
            forall|i: int| 0 <= i < self.keys@.len() ==> self.keys@[i] < b,
            self.children@.last().all_lt(b),
        ensures
            self.all_lt(b),
    {
        assert forall|i: int| 0 <= i < self.children@.len() implies (#[trigger] self.children@[
            i
        ]).all_lt(b) by {
            if i < self.keys@.len() {
                self.children@[i].lemma_all_lt_weaken(self.keys@[i], b);
            } else {
                assert(self.children@[i] == self.children@.last());
            }
        }
    }

    /// An internal node sits at or above `b` as soon as its first key and
    /// its first child do: every later child is above the key before it.
    pub proof fn lemma_internal_all_ge(self, b: u64)
        requires
            self.wf_loose(),
            !self.isLeafNode,
            b <= self.keys@[0],
            self.children@[0].all_ge(b),
        ensures
            self.all_ge(b),
    {
        assert forall|i: int| 0 <= i < self.keys@.len() implies self.keys@[i] >= b by {
            if i > 0 {
                assert(self.keys@[0] < self.keys@[i]);
            }
        }
        assert forall|i: int| 0 <= i < self.children@.len() implies (#[trigger] self.children@[
            i
        ]).all_ge(b) by {
            if i >= 1 {
                self.children@[i].lemma_all_ge_weaken(self.keys@[i - 1], b);
            }
        }
    }
}

/// Routing always lands between 0 and `keys.len()`.
pub proof fn lemma_route_idx_range(keys: Seq<u64>, k: u64)
    ensures
        0 <= route_idx(keys, k) <= keys.len(),
    decreases keys.len(),
{
    if keys.len() > 0 && !(keys.last() <= k) {
        lemma_route_idx_range(keys.drop_last(), k);
    }
}

/// On a sorted sequence, the routing index separates the keys `<= k` from
/// the keys `> k`.
pub proof fn lemma_route_idx_bounds(keys: Seq<u64>, k: u64)
    requires
        strictly_sorted(keys),
    ensures
        0 <= route_idx(keys, k) <= keys.len(),
        forall|j: int| 0 <= j < route_idx(keys, k) ==> keys[j] <= k,
        forall|j: int| route_idx(keys, k) <= j < keys.len() ==> keys[j] > k,
    decreases keys.len(),
{
    lemma_route_idx_range(keys, k);
    if keys.len() > 0 {
        if keys.last() <= k {
            assert forall|j: int| 0 <= j < route_idx(keys, k) implies keys[j] <= k by {
                if j < keys.len() - 1 {
                    assert(keys[j] < keys.last());
                }
            }
        } else {
            lemma_route_idx_bounds(keys.drop_last(), k);
            assert forall|j: int| 0 <= j < route_idx(keys, k) implies keys[j] <= k by {
                assert(keys.drop_last()[j] == keys[j]);
            }
            assert forall|j: int| route_idx(keys, k) <= j < keys.len() implies keys[j] > k by {
                if j < keys.len() - 1 {
                    assert(keys.drop_last()[j] == keys[j]);
                }
            }
        }
    }
}

/// Conversely, an index that separates the keys `<= k` from the keys `> k`
/// is the routing index: routing is unique on a sorted sequence.
pub proof fn lemma_route_idx_unique(keys: Seq<u64>, k: u64, i: int)
    requires
        strictly_sorted(keys),
        0 <= i <= keys.len(),
        i > 0 ==> keys[i - 1] <= k,
        i < keys.len() ==> keys[i] > k,
    ensures
        route_idx(keys, k) == i,
    decreases keys.len(),
{
    if keys.len() == 0 {
    } else if keys.last() <= k {
        if i < keys.len() {
            assert(keys[i] > k);
            assert(keys[i] <= keys.last());
        }
    } else {
        if i == keys.len() {
            assert(keys[i - 1] <= k);
        } else {
            lemma_route_idx_unique(keys.drop_last(), k, i);
        }
    }
}

/// Routing into a prefix: when routing lands inside the prefix, cutting the
/// tail off does not move it.
pub proof fn lemma_route_idx_prefix(keys: Seq<u64>, k: u64, m: int)
    requires
        strictly_sorted(keys),
        0 <= m <= keys.len(),
        route_idx(keys, k) <= m,
    ensures
        route_idx(keys.subrange(0, m), k) == route_idx(keys, k),
{
    lemma_route_idx_bounds(keys, k);
    let sub = keys.subrange(0, m);
    lemma_route_idx_unique(sub, k, route_idx(keys, k));
}

/// Routing into a suffix: when routing lands at or past `m`, the suffix
/// routes to the same place shifted down by `m`.
pub proof fn lemma_route_idx_suffix(keys: Seq<u64>, k: u64, m: int)
    requires
        strictly_sorted(keys),
        0 <= m <= keys.len(),
        route_idx(keys, k) >= m,
    ensures
        route_idx(keys.subrange(m, keys.len() as int), k) == route_idx(keys, k) - m,
{
    lemma_route_idx_bounds(keys, k);
    let sub = keys.subrange(m, keys.len() as int);
    lemma_route_idx_unique(sub, k, route_idx(keys, k) - m);
}

/// Inserting a key at its sorted position keeps the sequence sorted and
/// shifts every routing index by one exactly for the searches the new key
/// does not exceed.
#[verifier::rlimit(30)]
pub proof fn lemma_route_idx_insert(keys: Seq<u64>, i: int, a: u64, k: u64)
    requires
        strictly_sorted(keys),
        0 <= i <= keys.len(),
        i > 0 ==> keys[i - 1] < a,
        i < keys.len() ==> a < keys[i],
    ensures
        strictly_sorted(keys.insert(i, a)),
        route_idx(keys.insert(i, a), k) == route_idx(keys, k) + if a <= k {
            1int
        } else {
            0int
        },
{
    keys.insert_ensures(i, a);
    let s2 = keys.insert(i, a);
    assert(strictly_sorted(s2)) by {
        assert forall|p: int, q: int| 0 <= p < q < s2.len() implies s2[p] < s2[q] by {
            if p < i && q < i {
                assert(s2[p] == keys[p] && s2[q] == keys[q]);
            } else if p < i && q == i {
                assert(s2[p] == keys[p] && s2[q] == a);
                assert(keys[p] <= keys[i - 1]);
            } else if p < i && q > i {
                assert(s2[p] == keys[p] && s2[q] == keys[q - 1]);
            } else if p == i && q > i {
                assert(s2[p] == a && s2[q] == keys[q - 1]);
                assert(keys[i] <= keys[q - 1]);
            } else {
                assert(s2[p] == keys[p - 1] && s2[q] == keys[q - 1]);
            }
        }
    }
    let r = route_idx(keys, k);
    lemma_route_idx_bounds(keys, k);
    if a <= k {
        assert(r >= i) by {
            if r < i {
                assert(keys[r] > k);
                assert(keys[r] <= keys[i - 1] || r == i - 1);
            }
        }
        lemma_route_idx_unique(s2, k, r + 1);
    } else {
        assert(r <= i) by {
            if r > i {
                assert(keys[r - 1] <= k);
                assert(a < keys[i] || i == r - 1);
                if i < r - 1 {
                    assert(keys[i] <= keys[r - 1]);
                }
            }
        }
        lemma_route_idx_unique(s2, k, r);
    }
}

/// The leaf a search for `key` ends at: descend from `n`, at each internal
/// node into the child slot the routing invariant picks, until a leaf.
pub open spec fn routed_leaf(n: Node, key: u64) -> Node
    decreases n,
{
    if n.isLeafNode {
        n
    } else {
        let i = route_idx(n.keys@, key);
        if 0 <= i < n.children@.len() {
            routed_leaf(n.children@[i], key)
        } else {
            n
        }
    }
}

impl Node {
    /// An empty node; a leaf when `isLeaf` is set, else the (still childless)
    /// shell of an internal node.
    pub fn new(isLeaf: bool) -> (r: Node)
        ensures
            r.isLeafNode == isLeaf,
            r.keys@ == Seq::<u64>::empty(),
            r.values@ == Seq::<u64>::empty(),
            r.children@ == Seq::<Node>::empty(),
            isLeaf ==> r.wf(),
            isLeaf ==> r.as_map() == Map::<u64, u64>::empty(),
    {
        let r = Node { isLeafNode: isLeaf, keys: Vec::new(), values: Vec::new(), children: Vec::new() };
        proof {
            if isLeaf {
                assert(r.as_map() =~= Map::<u64, u64>::empty());
            }
        }
        r
    }

    /// The child slot a search for `key` descends into: the first index
    /// whose key exceeds `key`, or `keys.len()` when none does.
    fn route(&self, key: u64) -> (r: usize)
        requires
            strictly_sorted(self.keys@),
        ensures
            r == route_idx(self.keys@, key),
            r <= self.keys@.len(),
    {
        let n = self.keys.len();
        let mut i: usize = 0;
        while i < n
            invariant
                n == self.keys@.len(),
                0 <= i <= n,
                strictly_sorted(self.keys@),
                forall|j: int| 0 <= j < i ==> self.keys@[j] <= key,
            decreases n - i,
        {
            if key < self.keys[i] {
                proof {
                    lemma_route_idx_unique(self.keys@, key, i as int);
                }
                return i;
            }
            i = i + 1;
        }
        proof {
            lemma_route_idx_unique(self.keys@, key, self.keys@.len() as int);
        }
        i
    }

    /// The leaf a search for `key` ends at, found by descending the routing
    /// invariant. `key` is in this subtree exactly when that leaf holds it.
    pub fn findNode(&self, key: u64) -> (r: Option<&Node>)
        requires
            self.wf(),
        ensures
            match r {
                Some(leaf) => {
                    &&& *leaf == routed_leaf(*self, key)
                    &&& leaf.isLeafNode
                    &&& leaf.wf()
                    &&& (self.as_map().contains_key(key) <==> leaf.as_map().contains_key(key))
                    &&& (self.as_map().contains_key(key) ==> leaf.as_map()[key]
                        == self.as_map()[key])
                },
                None => false,
            },
        decreases self,
    {
        if self.isLeafNode {
            Some(self)
        } else {
            let i = self.route(key);
            self.children[i].findNode(key)
        }
    }

    /// The value stored for `key` in this subtree, if any.
    pub fn get(&self, key: u64) -> (r: Option<u64>)
        requires
            self.wf(),
        ensures
            r == if self.as_map().contains_key(key) {
                Some(self.as_map()[key])
            } else {
                None::<u64>
            },
        decreases self,
    {
        let i = self.route(key);
        if self.isLeafNode {
            if i >= 1 && self.keys[i - 1] == key {
                Some(self.values[i - 1])
            } else {
                None
            }
        } else {
            self.children[i].get(key)
        }
    }
}

/// Everything a split leaves behind, seen from the parent: two well
/// formed non-empty halves of the same kind on either side of the
/// separator, bounds on the original carrying over to both halves and to
/// the separator, and the reachable pairs preserved: those below the
/// separator in `left`, the rest in `right`.
pub open spec fn split_parts_ok(orig: Node, left: Node, sep: u64, right: Node) -> bool {
    &&& left.wf()
    &&& right.wf()
    &&& left.keys@.len() >= 1
    &&& right.keys@.len() >= 1
    &&& left.isLeafNode == orig.isLeafNode
    &&& right.isLeafNode == orig.isLeafNode
    &&& left.all_lt(sep)
    &&& right.all_ge(sep)
    &&& forall|b: u64| #[trigger] orig.all_lt(b) ==> left.all_lt(b) && right.all_lt(b) && sep < b
    &&& forall|b: u64| #[trigger] orig.all_ge(b) ==> left.all_ge(b) && right.all_ge(b) && sep >= b
    &&& forall|k: u64|
        k < sep ==> ((#[trigger] left.as_map().contains_key(k)) <==> orig.as_map().contains_key(k))
            && (orig.as_map().contains_key(k) ==> left.as_map()[k] == orig.as_map()[k])
    &&& forall|k: u64|
        k >= sep ==> ((#[trigger] right.as_map().contains_key(k))
            <==> orig.as_map().contains_key(k)) && (orig.as_map().contains_key(k)
            ==> right.as_map()[k] == orig.as_map()[k])
    &&& orig.balanced() ==> left.balanced() && right.balanced() && left.height() == orig.height()
        && right.height() == orig.height()
}

impl Node {
    /// Whether inserting `key` splits this node: the node is full and the
    /// insertion really adds a slot — for a leaf, the key is not already
    /// present; for an internal node, the routed child itself splits and
    /// hands a separator up.
    pub open spec fn insert_splits(self, key: u64) -> bool
        decreases self,
    {
        if self.isLeafNode {
            self.keys@.len() == MAX_NODE_KEYS as int && !self.as_map().contains_key(key)
        } else {
            let i = route_idx(self.keys@, key);
            self.keys@.len() == MAX_NODE_KEYS as int && 0 <= i < self.children@.len()
                && self.children@[i].insert_splits(key)
        }
    }
}

/// The shape a split insertion leaves: for a leaf, of the `2M` sorted keys
/// (the old ones plus the new one) the `M` smallest stay left, the `M`
/// largest go right, and the promoted separator is the median — the first
/// key of the right half, which keeps it. For an internal node the median
/// moves up entirely: `M` keys stay left and `M - 1` go right.
pub open spec fn split_shape_ok(orig: Node, key: u64, left: Node, sep: u64, right: Node) -> bool {
    if orig.isLeafNode {
        let grown = orig.keys@.insert(route_idx(orig.keys@, key), key);
        &&& left.keys@ == grown.subrange(0, M as int)
        &&& right.keys@ == grown.subrange(M as int, grown.len() as int)
        &&& sep == grown[M as int]
        &&& left.keys@.len() == M
        &&& right.keys@.len() == M
    } else {
        &&& left.keys@.len() == M
        &&& right.keys@.len() == M as int - 1
    }
}

/// What an insertion that did not split this node guarantees, short of the
/// size cap: the node holds the old pairs plus the new one, its kind is
/// unchanged, and any bound that held before and admits the new key still
/// holds.
pub open spec fn insert_grew_ok(orig: Node, key: u64, value: u64, now: Node) -> bool {
    &&& now.wf_loose()
    &&& now.isLeafNode == orig.isLeafNode
    &&& now.keys@.len() >= 1
    &&& now.as_map() == orig.as_map().insert(key, value)
    &&& orig.isLeafNode ==> now.keys@ == if orig.as_map().contains_key(key) {
        orig.keys@
    } else {
        orig.keys@.insert(route_idx(orig.keys@, key), key)
    }
    &&& forall|b: u64| #[trigger] orig.all_lt(b) && key < b ==> now.all_lt(b)
    &&& forall|b: u64| #[trigger] orig.all_ge(b) && key >= b ==> now.all_ge(b)
    &&& orig.balanced() ==> now.balanced() && now.height() == orig.height()
}

/// What an insertion that did not split this node guarantees.
pub open spec fn insert_no_split_ok(orig: Node, key: u64, value: u64, now: Node) -> bool {
    &&& insert_grew_ok(orig, key, value, now)
    &&& now.wf()
}

/// What an insertion that split this node guarantees: two well formed
/// halves around the promoted separator which together hold the old pairs
/// plus the new one, with bounds carrying over as in `insert_grew_ok`.
pub open spec fn insert_split_ok(
    orig: Node,
    key: u64,
    value: u64,
    left: Node,
    sep: u64,
    right: Node,
) -> bool {
    &&& left.wf()
    &&& right.wf()
    &&& left.keys@.len() >= 1
    &&& right.keys@.len() >= 1
    &&& left.isLeafNode == orig.isLeafNode
    &&& right.isLeafNode == orig.isLeafNode
    &&& left.all_lt(sep)
    &&& right.all_ge(sep)
    &&& forall|b: u64| #[trigger]
        orig.all_lt(b) && key < b ==> left.all_lt(b) && right.all_lt(b) && sep < b
    &&& forall|b: u64| #[trigger]
        orig.all_ge(b) && key >= b ==> left.all_ge(b) && right.all_ge(b) && sep >= b
    &&& forall|k: u64|
        k < sep ==> ((#[trigger] left.as_map().contains_key(k)) <==> orig.as_map().insert(
            key,
            value,
        ).contains_key(k)) && (left.as_map().contains_key(k) ==> left.as_map()[k]
            == orig.as_map().insert(key, value)[k])
    &&& forall|k: u64|
        k >= sep ==> ((#[trigger] right.as_map().contains_key(k)) <==> orig.as_map().insert(
            key,
            value,
        ).contains_key(k)) && (right.as_map().contains_key(k) ==> right.as_map()[k]
            == orig.as_map().insert(key, value)[k])
    &&& orig.balanced() ==> left.balanced() && right.balanced() && left.height() == orig.height()
        && right.height() == orig.height()
}

impl Node {
    /// Overwriting the value of a key a leaf already holds yields the old
    /// map with that key rebound.
    proof fn lemma_leaf_overwrite(orig: Node, key: u64, value: u64, now: Node)
        requires
            orig.wf(),
            orig.isLeafNode,
            1 <= route_idx(orig.keys@, key) <= orig.keys@.len(),
            orig.keys@[route_idx(orig.keys@, key) - 1] == key,
            now.isLeafNode,
            now.keys@ == orig.keys@,
            now.children@ == orig.children@,
            now.values@ == orig.values@.update(route_idx(orig.keys@, key) - 1, value),
        ensures
            insert_no_split_ok(orig, key, value, now),
    {
        let i = route_idx(orig.keys@, key);
        assert forall|k: u64| #[trigger]
            now.as_map().contains_key(k) <==> orig.as_map().insert(key, value).contains_key(
            k,
        ) by {}
        assert forall|k: u64|
            now.as_map().contains_key(k) implies #[trigger] now.as_map()[k]
            == orig.as_map().insert(key, value)[k] by {
            let rk = route_idx(now.keys@, k);
            if k != key {
                assert(now.keys@[rk - 1] == k);
                assert(rk != i);
            }
        }
        assert(now.as_map() =~= orig.as_map().insert(key, value));
    }

    /// Inserting a fresh key at its sorted position in a leaf yields the old
    /// map extended by the new pair, at the price of one more key slot.
    proof fn lemma_leaf_grow(orig: Node, key: u64, value: u64, now: Node)
        requires
            orig.wf(),
            orig.isLeafNode,
            now.isLeafNode,
            route_idx(orig.keys@, key) >= 1 ==> orig.keys@[route_idx(orig.keys@, key) - 1]
                != key,
            now.keys@ == orig.keys@.insert(route_idx(orig.keys@, key), key),
            now.values@ == orig.values@.insert(route_idx(orig.keys@, key), value),
            now.children@ == orig.children@,
        ensures
            insert_grew_ok(orig, key, value, now),
            now.keys@.len() == orig.keys@.len() + 1,
    {
        let i = route_idx(orig.keys@, key);
        lemma_route_idx_bounds(orig.keys@, key);
        orig.keys@.insert_ensures(i, key);
        orig.values@.insert_ensures(i, value);
        assert(i >= 1 ==> orig.keys@[i - 1] < key);
        lemma_route_idx_insert(orig.keys@, i, key, key);
        assert(now.keys@[i] == key);
        assert forall|k: u64|
            ((#[trigger] now.as_map().contains_key(k)) <==> orig.as_map().insert(
                key,
                value,
            ).contains_key(k)) && (now.as_map().contains_key(k) ==> now.as_map()[k]
            == orig.as_map().insert(key, value)[k]) by {
            lemma_route_idx_insert(orig.keys@, i, key, k);
            lemma_route_idx_bounds(orig.keys@, k);
            let rk = route_idx(orig.keys@, k);
            if k == key {
                assert(now.as_map().contains_key(k));
                assert(now.as_map()[k] == value);
            } else if key <= k {
                assert(route_idx(now.keys@, k) == rk + 1);
                assert(rk >= i);
                if rk >= 1 + i {
                    assert(now.keys@[rk] == orig.keys@[rk - 1]);
                } else {
                    assert(now.keys@[rk] == key);
                    assert(now.keys@[rk] != k);
                }
            } else {
                assert(route_idx(now.keys@, k) == rk);
                assert(rk <= i) by {
                    if rk > i {
                        assert(orig.keys@[i] > key) by {
                            assert(i < rk <= orig.keys@.len());
                        }
                        assert(orig.keys@[rk - 1] <= k);
                        assert(i <= rk - 1);
                        if i < rk - 1 {
                            assert(orig.keys@[i] < orig.keys@[rk - 1]);
                        }
                    }
                }
                if rk >= 1 {
                    assert(now.keys@[rk - 1] == orig.keys@[rk - 1]);
                }
            }
        }
        assert(now.as_map() =~= orig.as_map().insert(key, value));
    }

    /// An insertion that grew a node past its cap, followed by a split of
    /// that overflowing node, together make a well formed split insertion.
    proof fn lemma_compose_split(
        orig: Node,
        key: u64,
        value: u64,
        pre: Node,
        left: Node,
        sep: u64,
        right: Node,
    )
        requires
            insert_grew_ok(orig, key, value, pre),
            split_parts_ok(pre, left, sep, right),
        ensures
            insert_split_ok(orig, key, value, left, sep, right),
    {
        assert forall|b: u64| #[trigger]
            orig.all_lt(b) && key < b implies left.all_lt(b) && right.all_lt(b) && sep < b by {
            assert(pre.all_lt(b));
        }
        assert forall|b: u64| #[trigger]
            orig.all_ge(b) && key >= b implies left.all_ge(b) && right.all_ge(b) && sep >= b by {
            assert(pre.all_ge(b));
        }
        assert(insert_split_ok(orig, key, value, left, sep, right));
    }
}

impl Node {
    /// Replacing the routed child of an internal node by the child after an
    /// insertion that did not split it yields the old map extended by the
    /// new pair.
    proof fn lemma_child_update(orig: Node, key: u64, value: u64, i: int, child_new: Node, now: Node)
        requires
            orig.wf(),
            !orig.isLeafNode,
            i == route_idx(orig.keys@, key),
            0 <= i < orig.children@.len(),
            insert_no_split_ok(orig.children@[i], key, value, child_new),
            !now.isLeafNode,
            now.keys@ == orig.keys@,
            now.values@ == orig.values@,
            now.children@ == orig.children@.update(i, child_new),
        ensures
            insert_no_split_ok(orig, key, value, now),
    {
        lemma_route_idx_bounds(orig.keys@, key);
        let child = orig.children@[i];
        assert(now.children@[i] == child_new);
        assert(now.wf()) by {
            assert forall|j: int| 0 <= j < now.children@.len() implies (#[trigger] now.children@[
                j
            ]).wf() && now.children@[j].keys@.len() >= 1 by {
                if j != i {
                    assert(now.children@[j] == orig.children@[j]);
                }
            }
            assert forall|j: int| 0 <= j < now.keys@.len() implies (#[trigger] now.children@[
                j
            ]).all_lt(now.keys@[j]) by {
                if j != i {
                    assert(now.children@[j] == orig.children@[j]);
                } else {
                    assert(child.all_lt(orig.keys@[i]));
                    assert(key < orig.keys@[i]);
                }
            }
            assert forall|j: int| 1 <= j < now.children@.len() implies (#[trigger] now.children@[
                j
            ]).all_ge(now.keys@[j - 1]) by {
                if j != i {
                    assert(now.children@[j] == orig.children@[j]);
                } else {
                    assert(child.all_ge(orig.keys@[i - 1]));
                    assert(key >= orig.keys@[i - 1]);
                }
            }
        }
        assert forall|k: u64|
            ((#[trigger] now.as_map().contains_key(k)) <==> orig.as_map().insert(
                key,
                value,
            ).contains_key(k)) && (now.as_map().contains_key(k) ==> now.as_map()[k]
            == orig.as_map().insert(key, value)[k]) by {
            let rk = route_idx(orig.keys@, k);
            lemma_route_idx_bounds(orig.keys@, k);
            if rk == i {
                assert(child_new.as_map() == child.as_map().insert(key, value));
            } else {
                assert(now.children@[rk] == orig.children@[rk]);
                assert(k != key);
            }
        }
        assert(now.as_map() =~= orig.as_map().insert(key, value));
        assert forall|b: u64| #[trigger] orig.all_lt(b) && key < b implies now.all_lt(b) by {
            assert forall|j: int| 0 <= j < now.children@.len() implies (#[trigger] now.children@[
                j
            ]).all_lt(b) by {
                if j != i {
                    assert(now.children@[j] == orig.children@[j]);
                } else {
                    assert(child.all_lt(b));
                }
            }
        }
        assert forall|b: u64| #[trigger] orig.all_ge(b) && key >= b implies now.all_ge(b) by {
            assert forall|j: int| 0 <= j < now.children@.len() implies (#[trigger] now.children@[
                j
            ]).all_ge(b) by {
                if j != i {
                    assert(now.children@[j] == orig.children@[j]);
                } else {
                    assert(child.all_ge(b));
                }
            }
        }
    }

    /// Absorbing a child's split into an internal node — the separator into
    /// the keys, the two halves in place of the child — yields the old map
    /// extended by the new pair, at the price of one more key slot.
    #[verifier::rlimit(60)]
    proof fn lemma_absorb_split(
        orig: Node,
        key: u64,
        value: u64,
        i: int,
        cleft: Node,
        csep: u64,
        cright: Node,
        now: Node,
    )
        requires
            orig.wf(),
            !orig.isLeafNode,
            i == route_idx(orig.keys@, key),
            0 <= i < orig.children@.len(),
            insert_split_ok(orig.children@[i], key, value, cleft, csep, cright),
            !now.isLeafNode,
            now.keys@ == orig.keys@.insert(i, csep),
            now.values@ == orig.values@,
            now.children@ == orig.children@.update(i, cleft).insert(i + 1, cright),
        ensures
            insert_grew_ok(orig, key, value, now),
            now.keys@.len() == orig.keys@.len() + 1,
    {
        lemma_route_idx_bounds(orig.keys@, key);
        let child = orig.children@[i];
        let mid = orig.children@.update(i, cleft);
        mid.insert_ensures(i + 1, cright);
        orig.keys@.insert_ensures(i, csep);
        assert(now.children@[i] == cleft);
        assert(now.children@[i + 1] == cright);
        assert forall|j: int| 0 <= j < i implies now.children@[j] == orig.children@[j] by {
            assert(now.children@[j] == mid[j]);
        }
        assert forall|j: int| i + 1 < j < now.children@.len() implies now.children@[j]
            == orig.children@[j - 1] by {
            assert(now.children@[j] == mid[j - 1]);
        }
        // The separator fits strictly between the keys around slot i.
        assert(i >= 1 ==> orig.keys@[i - 1] < csep) by {
            if i >= 1 {
                assert(child.all_ge(orig.keys@[i - 1]));
                assert(key >= orig.keys@[i - 1]);
                assert(cleft.all_ge(orig.keys@[i - 1]) && csep >= orig.keys@[i - 1]);
                assert(cleft.keys@[0] >= orig.keys@[i - 1]);
                assert(cleft.keys@[0] < csep);
            }
        }
        assert(i < orig.keys@.len() ==> csep < orig.keys@[i]) by {
            if i < orig.keys@.len() {
                assert(child.all_lt(orig.keys@[i]));
                assert(key < orig.keys@[i]);
            }
        }
        lemma_route_idx_insert(orig.keys@, i, csep, key);
        assert(now.wf_loose()) by {
            assert forall|j: int| 0 <= j < now.children@.len() implies (#[trigger] now.children@[
                j
            ]).wf() && now.children@[j].keys@.len() >= 1 by {
                if j < i {
                    assert(now.children@[j] == orig.children@[j]);
                } else if j > i + 1 {
                    assert(now.children@[j] == orig.children@[j - 1]);
                }
            }
            assert forall|j: int| 0 <= j < now.keys@.len() implies (#[trigger] now.children@[
                j
            ]).all_lt(now.keys@[j]) by {
                if j < i {
                    assert(now.children@[j] == orig.children@[j]);
                    assert(now.keys@[j] == orig.keys@[j]);
                } else if j == i {
                    assert(now.keys@[j] == csep);
                } else if j == i + 1 {
                    assert(now.keys@[j] == orig.keys@[j - 1]);
                    assert(child.all_lt(orig.keys@[i]));
                    assert(key < orig.keys@[i]);
                } else {
                    assert(now.children@[j] == orig.children@[j - 1]);
                    assert(now.keys@[j] == orig.keys@[j - 1]);
                    assert(orig.children@[j - 1].all_lt(orig.keys@[j - 1]));
                }
            }
            assert forall|j: int| 1 <= j < now.children@.len() implies (#[trigger] now.children@[
                j
            ]).all_ge(now.keys@[j - 1]) by {
                if j < i {
                    assert(now.children@[j] == orig.children@[j]);
                    assert(now.keys@[j - 1] == orig.keys@[j - 1]);
                } else if j == i {
                    assert(now.keys@[j - 1] == orig.keys@[j - 1]);
                    assert(child.all_ge(orig.keys@[i - 1]));
                    assert(key >= orig.keys@[i - 1]);
                } else if j == i + 1 {
                    assert(now.keys@[j - 1] == csep);
                } else {
                    assert(now.children@[j] == orig.children@[j - 1]);
                    assert(now.keys@[j - 1] == orig.keys@[j - 2]);
                    assert(orig.children@[j - 1].all_ge(orig.keys@[j - 2]));
                }
            }
        }
        assert forall|k: u64|
            ((#[trigger] now.as_map().contains_key(k)) <==> orig.as_map().insert(
                key,
                value,
            ).contains_key(k)) && (now.as_map().contains_key(k) ==> now.as_map()[k]
            == orig.as_map().insert(key, value)[k]) by {
            let rk = route_idx(orig.keys@, k);
            lemma_route_idx_bounds(orig.keys@, k);
            lemma_route_idx_insert(orig.keys@, i, csep, k);
            if rk < i {
                assert(k < orig.keys@[rk]);
                assert(orig.keys@[rk] <= orig.keys@[i - 1] || rk == i - 1);
                assert(k < csep);
                assert(route_idx(now.keys@, k) == rk);
                assert(now.children@[rk] == orig.children@[rk]);
                assert(k != key);
            } else if rk > i {
                assert(orig.keys@[rk - 1] <= k);
                assert(orig.keys@[i] <= orig.keys@[rk - 1]);
                assert(csep <= k);
                assert(route_idx(now.keys@, k) == rk + 1);
                assert(now.children@[rk + 1] == orig.children@[rk]);
                assert(k != key);
            } else {
                assert(child.as_map().contains_key(k) <==> orig.as_map().contains_key(k));
                if k < csep {
                    assert(route_idx(now.keys@, k) == i);
                    assert(now.children@[i] == cleft);
                    assert((cleft.as_map().contains_key(k) <==> child.as_map().insert(
                        key,
                        value,
                    ).contains_key(k)) && (cleft.as_map().contains_key(k)
                        ==> cleft.as_map()[k] == child.as_map().insert(key, value)[k]));
                } else {
                    assert(route_idx(now.keys@, k) == i + 1);
                    assert(now.children@[i + 1] == cright);
                    assert((cright.as_map().contains_key(k) <==> child.as_map().insert(
                        key,
                        value,
                    ).contains_key(k)) && (cright.as_map().contains_key(k)
                        ==> cright.as_map()[k] == child.as_map().insert(key, value)[k]));
                }
            }
        }
        assert(now.as_map() =~= orig.as_map().insert(key, value));
        assert forall|b: u64| #[trigger] orig.all_lt(b) && key < b implies now.all_lt(b) by {
            assert(child.all_lt(b));
            assert(cleft.all_lt(b) && cright.all_lt(b) && csep < b);
            assert forall|j: int| 0 <= j < now.keys@.len() implies now.keys@[j] < b by {
                if j < i {
                    assert(now.keys@[j] == orig.keys@[j]);
                } else if j > i {
                    assert(now.keys@[j] == orig.keys@[j - 1]);
                }
            }
            assert forall|j: int| 0 <= j < now.children@.len() implies (#[trigger] now.children@[
                j
            ]).all_lt(b) by {
                if j < i {
                    assert(now.children@[j] == orig.children@[j]);
                } else if j > i + 1 {
                    assert(now.children@[j] == orig.children@[j - 1]);
                }
            }
        }
        assert forall|b: u64| #[trigger] orig.all_ge(b) && key >= b implies now.all_ge(b) by {
            assert(child.all_ge(b));
            assert(cleft.all_ge(b) && cright.all_ge(b) && csep >= b);
            assert forall|j: int| 0 <= j < now.keys@.len() implies now.keys@[j] >= b by {
                if j < i {
                    assert(now.keys@[j] == orig.keys@[j]);
                } else if j > i {
                    assert(now.keys@[j] == orig.keys@[j - 1]);
                }
            }
            assert forall|j: int| 0 <= j < now.children@.len() implies (#[trigger] now.children@[
                j
            ]).all_ge(b) by {
                if j < i {
                    assert(now.children@[j] == orig.children@[j]);
                } else if j > i + 1 {
                    assert(now.children@[j] == orig.children@[j - 1]);
                }
            }
        }
        assert(insert_grew_ok(orig, key, value, now));
    }
}

impl Node {
    /// What splitting an overflowing leaf leaves behind: both halves are
    /// well formed, sit on either side of the separator, and together hold
    /// exactly the pairs of the original leaf.
    proof fn lemma_split_leaf_maps(self, orig: Node, right: Node, sep: u64)
        requires
            orig.wf_loose(),
            orig.isLeafNode,
            orig.keys@.len() == 2 * M,
            self.isLeafNode,
            right.isLeafNode,
            self.keys@ == orig.keys@.subrange(0, M as int),
            self.values@ == orig.values@.subrange(0, M as int),
            self.children@ == orig.children@,
            right.keys@ == orig.keys@.subrange(M as int, 2 * M as int),
            right.values@ == orig.values@.subrange(M as int, 2 * M as int),
            right.children@.len() == 0,
            sep == orig.keys@[M as int],
        ensures
            split_parts_ok(orig, self, sep, right),
    {
        assert forall|k: u64| k < sep implies ((#[trigger] self.as_map().contains_key(k))
            <==> orig.as_map().contains_key(k)) && (orig.as_map().contains_key(k)
            ==> self.as_map()[k] == orig.as_map()[k]) by {
            lemma_route_idx_bounds(orig.keys@, k);
            let ro = route_idx(orig.keys@, k);
            assert(ro <= M) by {
                if ro > M as int {
                    assert(orig.keys@[M as int] <= k);
                }
            }
            lemma_route_idx_prefix(orig.keys@, k, M as int);
        }
        assert forall|k: u64| k >= sep implies ((#[trigger] right.as_map().contains_key(k))
            <==> orig.as_map().contains_key(k)) && (orig.as_map().contains_key(k)
            ==> right.as_map()[k] == orig.as_map()[k]) by {
            lemma_route_idx_bounds(orig.keys@, k);
            let ro = route_idx(orig.keys@, k);
            assert(ro > M) by {
                if ro <= M as int {
                    assert(orig.keys@[M as int] > k);
                }
            }
            lemma_route_idx_suffix(orig.keys@, k, M as int);
        }
    }

    /// What splitting an overflowing internal node leaves behind: the median
    /// key moves up as the separator, the children are partitioned alongside
    /// the keys, and the reachable pairs are preserved on either side.
    proof fn lemma_split_internal_maps(self, orig: Node, right: Node, sep: u64)
        requires
            orig.wf_loose(),
            !orig.isLeafNode,
            orig.keys@.len() == 2 * M,
            !self.isLeafNode,
            !right.isLeafNode,
            self.keys@ == orig.keys@.subrange(0, M as int),
            self.values@ == orig.values@,
            self.children@ == orig.children@.subrange(0, M as int + 1),
            right.keys@ == orig.keys@.subrange(M as int + 1, 2 * M as int),
            right.values@.len() == 0,
            right.children@ == orig.children@.subrange(M as int + 1, 2 * M as int + 1),
            sep == orig.keys@[M as int],
        ensures
            split_parts_ok(orig, self, sep, right),
    {
        assert(self.wf()) by {
            assert forall|i: int| 0 <= i < self.children@.len() implies (#[trigger] self.children@[
                i
            ]).wf() && self.children@[i].keys@.len() >= 1 by {
                assert(self.children@[i] == orig.children@[i]);
            }
            assert forall|i: int| 0 <= i < self.keys@.len() implies (#[trigger] self.children@[
                i
            ]).all_lt(self.keys@[i]) by {
                assert(self.children@[i] == orig.children@[i]);
                assert(self.keys@[i] == orig.keys@[i]);
            }
            assert forall|i: int| 1 <= i < self.children@.len() implies (#[trigger] self.children@[
                i
            ]).all_ge(self.keys@[i - 1]) by {
                assert(self.children@[i] == orig.children@[i]);
                assert(self.keys@[i - 1] == orig.keys@[i - 1]);
            }
        }
        assert(right.wf()) by {
            assert forall|i: int| 0 <= i < right.children@.len() implies (#[trigger] right.children@[
                i
            ]).wf() && right.children@[i].keys@.len() >= 1 by {
                assert(right.children@[i] == orig.children@[i + M + 1]);
            }
            assert forall|i: int| 0 <= i < right.keys@.len() implies (#[trigger] right.children@[
                i
            ]).all_lt(right.keys@[i]) by {
                assert(right.children@[i] == orig.children@[i + M + 1]);
                assert(right.keys@[i] == orig.keys@[i + M + 1]);
            }
            assert forall|i: int| 1 <= i < right.children@.len() implies (#[trigger] right.children@[
                i
            ]).all_ge(right.keys@[i - 1]) by {
                assert(right.children@[i] == orig.children@[i + M + 1]);
                assert(right.keys@[i - 1] == orig.keys@[i + M]);
                assert(orig.children@[i + M + 1].all_ge(orig.keys@[i + M]));
            }
        }
        assert(self.all_lt(sep)) by {
            assert(self.children@.last() == orig.children@[M as int]);
            assert(orig.children@[M as int].all_lt(orig.keys@[M as int]));
            self.lemma_internal_all_lt(sep);
        }
        assert(right.all_ge(sep)) by {
            assert(right.children@[0] == orig.children@[M as int + 1]);
            assert(orig.children@[M as int + 1].all_ge(orig.keys@[M as int]));
            right.lemma_internal_all_ge(sep);
        }
        assert forall|b: u64| #[trigger]
            orig.all_lt(b) implies self.all_lt(b) && right.all_lt(b) && sep < b by {
            assert(orig.children@[M as int].all_lt(b));
            assert(orig.children@.last().all_lt(b));
            self.lemma_internal_all_lt(b);
            right.lemma_internal_all_lt(b);
        }
        assert forall|b: u64| #[trigger]
            orig.all_ge(b) implies self.all_ge(b) && right.all_ge(b) && sep >= b by {
            assert(orig.children@[0].all_ge(b));
            assert(orig.children@[M as int + 1].all_ge(b));
            self.lemma_internal_all_ge(b);
            right.lemma_internal_all_ge(b);
        }
        assert forall|k: u64| k < sep implies ((#[trigger] self.as_map().contains_key(k))
            <==> orig.as_map().contains_key(k)) && (orig.as_map().contains_key(k)
            ==> self.as_map()[k] == orig.as_map()[k]) by {
            lemma_route_idx_bounds(orig.keys@, k);
            let ro = route_idx(orig.keys@, k);
            assert(ro <= M) by {
                if ro > M as int {
                    assert(orig.keys@[M as int] <= k);
                }
            }
            lemma_route_idx_prefix(orig.keys@, k, M as int);
            assert(self.children@[ro] == orig.children@[ro]);
        }
        assert forall|k: u64| k >= sep implies ((#[trigger] right.as_map().contains_key(k))
            <==> orig.as_map().contains_key(k)) && (orig.as_map().contains_key(k)
            ==> right.as_map()[k] == orig.as_map()[k]) by {
            lemma_route_idx_bounds(orig.keys@, k);
            let ro = route_idx(orig.keys@, k);
            assert(ro > M) by {
                if ro <= M as int {
                    assert(orig.keys@[M as int] > k);
                }
            }
            lemma_route_idx_suffix(orig.keys@, k, M as int + 1);
            assert(right.children@[ro - M - 1] == orig.children@[ro]);
        }
        assert(split_parts_ok(orig, self, sep, right));
    }

    /// Split an overflowing node. The lower `M` keys stay in `self`; the
    /// median is promoted as the returned separator; the rest move to the
    /// returned right sibling. A leaf keeps the median's pair in the right
    /// sibling (the separator is a copy); an internal node hands the median
    /// up entirely, and its children are partitioned alongside the keys.
    fn split(&mut self) -> (r: (u64, Node))
        requires
            old(self).wf_loose(),
            old(self).keys@.len() == 2 * M,
        ensures
            split_parts_ok(*old(self), *final(self), r.0, r.1),
            old(self).isLeafNode ==> final(self).keys@ == old(self).keys@.subrange(0, M as int),
            old(self).isLeafNode ==> r.1.keys@ == old(self).keys@.subrange(M as int, 2 * M as int),
            old(self).isLeafNode ==> r.0 == old(self).keys@[M as int],
            final(self).keys@.len() == M,
            !old(self).isLeafNode ==> r.1.keys@.len() == M as int - 1,
    {
        let ghost ok = self.keys@;
        if self.isLeafNode {
            let right_keys = self.keys.split_off(M);
            let right_values = self.values.split_off(M);
            let sep = right_keys[0];
            let right = Node {
                isLeafNode: true,
                keys: right_keys,
                values: right_values,
                children: Vec::new(),
            };
            proof {
                self.lemma_split_leaf_maps(*old(self), right, sep);
            }
            (sep, right)
        } else {
            let right_keys = self.keys.split_off(M + 1);
            let sep = self.keys[M];
            self.keys.truncate(M);
            let right_children = self.children.split_off(M + 1);
            let right = Node {
                isLeafNode: false,
                keys: right_keys,
                values: Vec::new(),
                children: right_children,
            };
            proof {
                assert(self.keys@ =~= ok.subrange(0, M as int));
                self.lemma_split_internal_maps(*old(self), right, sep);
            }
            (sep, right)
        }
    }
}

impl Node {
    /// Insert `key` with `value` into this subtree, overwriting the value
    /// when the key is already present. When the node overflows it splits:
    /// the node keeps the lower half and the promoted separator and the new
    /// right sibling are handed back for the caller to absorb.
    pub fn insert(&mut self, key: u64, value: u64) -> (r: Option<(u64, Node)>)
        requires
            old(self).wf(),
        ensures
            r.is_some() <==> old(self).insert_splits(key),
            match r {
                None => insert_no_split_ok(*old(self), key, value, *final(self)),
                Some(sr) => insert_split_ok(*old(self), key, value, *final(self), sr.0, sr.1)
                    && split_shape_ok(*old(self), key, *final(self), sr.0, sr.1),
            },
        decreases *old(self),
    {
        let i = self.route(key);
        if self.isLeafNode {
            if i >= 1 && self.keys[i - 1] == key {
                self.values.set(i - 1, value);
                proof {
                    Node::lemma_leaf_overwrite(*old(self), key, value, *self);
                }
                return None;
            }
            self.keys.insert(i, key);
            self.values.insert(i, value);
            proof {
                Node::lemma_leaf_grow(*old(self), key, value, *self);
            }
            if self.keys.len() > MAX_NODE_KEYS {
                let ghost pre = *self;
                let sr = self.split();
                proof {
                    Node::lemma_compose_split(*old(self), key, value, pre, *self, sr.0, sr.1);
                }
                return Some(sr);
            }
            None
        } else {
            let mut child = self.children.remove(i);
            let cr = child.insert(key, value);
            match cr {
                None => {
                    let ghost g_child = child;
                    self.children.insert(i, child);
                    proof {
                        assert(self.children@ =~= old(self).children@.update(i as int, g_child));
                        Node::lemma_child_update(*old(self), key, value, i as int, g_child, *self);
                    }
                    None
                }
                Some((csep, cright)) => {
                    let ghost g_child = child;
                    let ghost g_cright = cright;
                    self.children.insert(i, child);
                    self.children.insert(i + 1, cright);
                    self.keys.insert(i, csep);
                    proof {
                        assert(self.children@ =~= old(self).children@.update(
                            i as int,
                            g_child,
                        ).insert(i as int + 1, g_cright));
                        Node::lemma_absorb_split(
                            *old(self),
                            key,
                            value,
                            i as int,
                            g_child,
                            csep,
                            g_cright,
                            *self,
                        );
                    }
                    if self.keys.len() > MAX_NODE_KEYS {
                        let ghost pre = *self;
                        let sr = self.split();
                        proof {
                            Node::lemma_compose_split(
                                *old(self),
                                key,
                                value,
                                pre,
                                *self,
                                sr.0,
                                sr.1,
                            );
                        }
                        return Some(sr);
                    }
                    None
                }
            }
        }
    }
}

/// The contents of an index after a sequence of insertions applied left to
/// right, starting from contents `m`.
pub open spec fn insert_all(m: Map<u64, u64>, entries: Seq<(u64, u64)>) -> Map<u64, u64>
    decreases entries.len(),
{
    if entries.len() == 0 {
        m
    } else {
        insert_all(m.insert(entries[0].0, entries[0].1), entries.drop_first())
    }
}

/// Round trip: once `key` is bound to `value`, any sequence of later
/// insertions under other keys leaves that binding in place — and `get`
/// returns exactly the view's binding, so it returns the most recently
/// inserted value for `key`.
pub proof fn lemma_round_trip(m: Map<u64, u64>, key: u64, value: u64, later: Seq<(u64, u64)>)
    requires
        forall|i: int| 0 <= i < later.len() ==> (#[trigger] later[i]).0 != key,
    ensures
        insert_all(m.insert(key, value), later).contains_key(key),
        insert_all(m.insert(key, value), later)[key] == value,
    decreases later.len(),
{
    if later.len() > 0 {
        let k0 = later[0].0;
        let v0 = later[0].1;
        assert(later[0].0 != key);
        assert(m.insert(key, value).insert(k0, v0) =~= m.insert(k0, v0).insert(key, value));
        assert forall|i: int| 0 <= i < later.drop_first().len() implies (#[trigger] later.drop_first()[
            i
        ]).0 != key by {
            assert(later.drop_first()[i] == later[i + 1]);
        }
        lemma_round_trip(m.insert(k0, v0), key, value, later.drop_first());
    }
}

/// Absence: a key never inserted stays absent through any sequence of
/// insertions under other keys, so `get` reports "not found" for it.
pub proof fn lemma_absent(m: Map<u64, u64>, key: u64, entries: Seq<(u64, u64)>)
    requires
        !m.contains_key(key),
        forall|i: int| 0 <= i < entries.len() ==> (#[trigger] entries[i]).0 != key,
    ensures
        !insert_all(m, entries).contains_key(key),
    decreases entries.len(),
{
    if entries.len() > 0 {
        assert(entries[0].0 != key);
        assert forall|i: int| 0 <= i < entries.drop_first().len() implies (#[trigger] entries.drop_first()[
            i
        ]).0 != key by {
            assert(entries.drop_first()[i] == entries[i + 1]);
        }
        lemma_absent(m.insert(entries[0].0, entries[0].1), key, entries.drop_first());
    }
}

/// Ordering invariant: in a well formed node the keys are strictly
/// increasing; in a well formed internal node every key under `children[i]`
/// is below `keys[i]` and, from the second child on, at least the key
/// before it. Well-formedness is recursive, so this holds of every node of
/// a well formed tree, and `new` and `insert` keep the tree well formed
/// after any sequence of operations.
pub proof fn lemma_ordering_invariant(n: Node)
    requires
        n.wf(),
    ensures
        strictly_sorted(n.keys@),
        !n.isLeafNode ==> forall|i: int|
            0 <= i < n.keys@.len() ==> (#[trigger] n.children@[i]).all_lt(n.keys@[i]),
        !n.isLeafNode ==> forall|i: int|
            1 <= i < n.children@.len() ==> (#[trigger] n.children@[i]).all_ge(n.keys@[i - 1]),
{
}

/// Balance invariant: in a well formed tree all leaves sit at the same
/// depth. `new` establishes it and `insert` preserves it: a split never
/// deepens one branch alone, and the height grows only when the root
/// splits and a new root is created above both halves.
pub proof fn lemma_balance_invariant(t: BTree)
    requires
        t.wf(),
    ensures
        t.root.balanced(),
{
}

/// Fan-out invariant: a well formed node holds at most `2M - 1` keys; a
/// well formed internal node has exactly `nKeys + 1` children, each well
/// formed and holding at least one key.
pub proof fn lemma_fanout_invariant(n: Node)
    requires
        n.wf(),
    ensures
        n.keys@.len() <= MAX_NODE_KEYS as int,
        !n.isLeafNode ==> n.children@.len() == n.keys@.len() + 1,
        !n.isLeafNode ==> 1 <= n.keys@.len(),
        !n.isLeafNode ==> forall|i: int|
            0 <= i < n.children@.len() ==> (#[trigger] n.children@[i]).wf()
                && n.children@[i].keys@.len() >= 1,
{
}

/// The shape of the tree after the root itself split: a fresh internal
/// root holding exactly the promoted separator above the two halves. When
/// the old root was a leaf — the case of `2M` distinct keys meeting a
/// single full leaf — the halves are leaves holding the `M` smallest and
/// the `M` largest of the `2M` sorted keys, and the root's one key is the
/// median, the first key of the right half.
pub open spec fn root_grew_ok(orig: BTree, key: u64, now: BTree) -> bool {
    &&& !now.root.isLeafNode
    &&& now.root.keys@.len() == 1
    &&& now.root.children@.len() == 2
    &&& orig.root.isLeafNode ==> {
        let grown = orig.root.keys@.insert(route_idx(orig.root.keys@, key), key);
        &&& now.root.children@[0].isLeafNode
        &&& now.root.children@[1].isLeafNode
        &&& now.root.children@[0].keys@ == grown.subrange(0, M as int)
        &&& now.root.children@[1].keys@ == grown.subrange(M as int, grown.len() as int)
        &&& now.root.keys@[0] == grown[M as int]
    }
}

/// Split correctness: when a key meets a tree whose root is a single full
/// leaf and splits it, the new root holds exactly one key — the median —
/// above two leaf children of `M` keys each; the children's keys, taken
/// together, are exactly the `2M` keys inserted so far (the promoted key
/// among them, as the right child's first key).
pub proof fn lemma_split_correctness(orig: BTree, key: u64, now: BTree)
    requires
        orig.root.isLeafNode,
        orig.root.keys@.len() == MAX_NODE_KEYS as int,
        root_grew_ok(orig, key, now),
    ensures
        now.root.keys@.len() == 1,
        now.root.children@.len() == 2,
        now.root.children@[0].keys@.len() == M,
        now.root.children@[1].keys@.len() == M,
        now.root.children@[0].keys@ + now.root.children@[1].keys@ == orig.root.keys@.insert(
            route_idx(orig.root.keys@, key),
            key,
        ),
        now.root.keys@[0] == now.root.children@[1].keys@[0],
{
    let grown = orig.root.keys@.insert(route_idx(orig.root.keys@, key), key);
    lemma_route_idx_range(orig.root.keys@, key);
    orig.root.keys@.insert_ensures(route_idx(orig.root.keys@, key), key);
    assert(now.root.children@[0].keys@ + now.root.children@[1].keys@ =~= grown);
}

impl BTree {
    /// The abstract contents of the index.
    pub open spec fn view(self) -> Map<u64, u64> {
        self.root.as_map()
    }

    /// The index invariant: the root is well formed and the tree balanced,
    /// so all leaves sit at the same depth. (The root alone may be an empty
    /// leaf, the state of a fresh tree.)
    pub open spec fn wf(self) -> bool {
        self.root.wf() && self.root.balanced()
    }

    /// A fresh, empty index: its root is the one empty leaf.
    pub fn new() -> (r: BTree)
        ensures
            r.wf(),
            r@ == Map::<u64, u64>::empty(),
            r.root.isLeafNode,
            r.root.keys@ == Seq::<u64>::empty(),
            r.root.values@ == Seq::<u64>::empty(),
            r.root.children@ == Seq::<Node>::empty(),
    {
        BTree { root: Node::new(true) }
    }

    /// The leaf a search for `key` ends at. A fresh tree's empty root is
    /// itself that leaf; otherwise the search descends from the root.
    pub fn findNode(&self, key: u64) -> (r: Option<&Node>)
        requires
            self.wf(),
        ensures
            match r {
                Some(leaf) => {
                    &&& *leaf == routed_leaf(self.root, key)
                    &&& leaf.isLeafNode
                    &&& leaf.wf()
                    &&& (self@.contains_key(key) <==> leaf.as_map().contains_key(key))
                    &&& (self@.contains_key(key) ==> leaf.as_map()[key] == self@[key])
                },
                None => false,
            },
    {
        if self.root.keys.len() == 0 {
            return Some(&self.root);
        }
        self.root.findNode(key)
    }

    /// The value stored for `key`, or nothing when `key` was never inserted.
    pub fn get(&self, key: u64) -> (r: Option<u64>)
        requires
            self.wf(),
        ensures
            r == if self@.contains_key(key) {
                Some(self@[key])
            } else {
                None::<u64>
            },
    {
        match self.findNode(key) {
            Some(node) => node.get(key),
            None => None,
        }
    }

    /// Insert `key` with `value`, overwriting the value when the key is
    /// already present. When the root splits, a new root is grown holding
    /// the promoted key and the two halves; the tree only gets taller here.
    pub fn insert(&mut self, key: u64, value: u64)
        requires
            old(self).wf(),
        ensures
            final(self).wf(),
            final(self)@ == old(self)@.insert(key, value),
            !old(self).root.insert_splits(key) ==> final(self).root.isLeafNode == old(
                self).root.isLeafNode,
            old(self).root.isLeafNode && !old(self).root.insert_splits(key) ==> final(
                self).root.keys@ == if old(self)@.contains_key(key) {
                old(self).root.keys@
            } else {
                old(self).root.keys@.insert(route_idx(old(self).root.keys@, key), key)
            },
            old(self).root.insert_splits(key) ==> root_grew_ok(*old(self), key, *final(self)),
    {
        let r = self.root.insert(key, value);
        match r {
            None => {},
            Some((sep, right)) => {
                let mut left = Node::new(false);
                core::mem::swap(&mut self.root, &mut left);
                let ghost g_left = left;
                let ghost g_right = right;
                let mut root_keys = Vec::new();
                root_keys.push(sep);
                let mut root_children = Vec::new();
                root_children.push(left);
                root_children.push(right);
                self.root = Node {
                    isLeafNode: false,
                    keys: root_keys,
                    values: Vec::new(),
                    children: root_children,
                };
                proof {
                    assert(self.root.keys@ =~= seq![sep]);
                    assert(self.root.children@ =~= seq![g_left, g_right]);
                    assert(self.root.children@[0] == g_left);
                    assert(self.root.children@[1] == g_right);
                    assert(self.root.wf());
                    let mid = old(self).root.as_map().insert(key, value);
                    assert forall|k: u64|
                        ((#[trigger] self.root.as_map().contains_key(k)) <==> mid.contains_key(
                            k,
                        )) && (self.root.as_map().contains_key(k) ==> self.root.as_map()[k]
                        == mid[k]) by {
                        lemma_route_idx_unique(
                            self.root.keys@,
                            k,
                            if sep <= k {
                                1int
                            } else {
                                0int
                            },
                        );
                        if k < sep {
                            assert((g_left.as_map().contains_key(k) <==> mid.contains_key(k)) && (
                            g_left.as_map().contains_key(k) ==> g_left.as_map()[k] == mid[k]));
                        } else {
                            assert((g_right.as_map().contains_key(k) <==> mid.contains_key(k)) && (
                            g_right.as_map().contains_key(k) ==> g_right.as_map()[k] == mid[k]));
                        }
                    }
                    assert(self.root.as_map() =~= mid);
                }
            },
        }
    }
}

} // verus!
