//! The array-backed binary search tree and its resumable in-order cursor.

use vstd::prelude::*;

use crate::order::eqv;
use crate::order::lt;
use crate::order::KeyCmp;
use crate::order::TotalOrder;

verus! {

/// One key/value pair, the payload of an occupied slot.
#[derive(Clone, Copy)]
pub struct GPair<K, V>(K, V);

impl<K, V> GPair<K, V> {
    /// The key of the pair.
    pub closed spec fn key(self) -> K {
        self.0
    }

    /// The value of the pair.
    pub closed spec fn val(self) -> V {
        self.1
    }

    /// Bundles a key and a value into a pair.
    pub fn new(key: K, val: V) -> (p: GPair<K, V>)
        ensures
            p.key() == key,
            p.val() == val,
    {
        GPair(key, val)
    }
}

/// Index of the left child of slot `i` under heap-style indexing.
pub open spec fn left_of(i: int) -> int {
    2 * i + 1
}

/// Index of the right child of slot `i` under heap-style indexing.
pub open spec fn right_of(i: int) -> int {
    2 * i + 2
}

/// Index of the parent of slot `i` under heap-style indexing.
pub open spec fn parent_idx(i: int) -> int {
    (i - 1) / 2
}

/// Slot `j` lies in the subtree rooted at slot `i` under heap-style indexing.
pub open spec fn in_subtree(i: int, j: int) -> bool
    decreases j,
{
    if j <= i {
        j == i
    } else if j <= 0 {
        false
    } else {
        in_subtree(i, parent_idx(j))
    }
}

/// Where a probe for `key` ends: in an empty slot where the key can be
/// placed, on an occupied slot holding an equivalent key, or at a child
/// index outside the array.
pub enum Probe {
    /// The descent reached the empty slot at this index.
    Lands { idx: int },
    /// The descent met an equivalent key at this occupied index.
    Duplicate { idx: int },
    /// The descent from this occupied index needed a child index beyond the
    /// capacity.
    Exhausted { idx: int },
}

/// The slot indices of a traversal, as mathematical integers.
pub open spec fn to_indices(s: Seq<usize>) -> Seq<int> {
    s.map_values(|u: usize| u as int)
}

/// Every non-negative index is in the subtree of the root.
proof fn lemma_root_subtree(j: int)
    requires
        0 <= j,
    ensures
        in_subtree(0, j),
    decreases j,
{
    if j > 0 {
        lemma_root_subtree(parent_idx(j));
    }
}

/// The index a probe ends at, whatever way it ended.
pub open spec fn probe_idx(p: Probe) -> int {
    match p {
        Probe::Lands { idx } => idx,
        Probe::Duplicate { idx } => idx,
        Probe::Exhausted { idx } => idx,
    }
}

/// Children come after their parent, and are in their parent's subtree.
proof fn lemma_child_facts(i: int)
    requires
        0 <= i,
    ensures
        parent_idx(left_of(i)) == i,
        parent_idx(right_of(i)) == i,
        left_of(i) > i,
        right_of(i) > i,
        in_subtree(i, left_of(i)),
        in_subtree(i, right_of(i)),
{
    assert(parent_idx(left_of(i)) == i);
    assert(parent_idx(right_of(i)) == i);
    assert(in_subtree(i, i));
    assert(in_subtree(i, left_of(i)));
    assert(in_subtree(i, right_of(i)));
}

/// A subtree holds no index before its root.
proof fn lemma_in_subtree_bounds(i: int, j: int)
    requires
        in_subtree(i, j),
    ensures
        j >= i,
{
}

/// Subtree containment is transitive.
proof fn lemma_in_subtree_trans(a: int, b: int, c: int)
    requires
        in_subtree(a, b),
        in_subtree(b, c),
    ensures
        in_subtree(a, c),
    decreases c,
{
    if c != b {
        lemma_in_subtree_trans(a, b, parent_idx(c));
    }
}

/// A strict descendant of `i` lies in the subtree of one of `i`'s children.
proof fn lemma_subtree_split(i: int, j: int)
    requires
        0 <= i,
        in_subtree(i, j),
        j != i,
    ensures
        in_subtree(left_of(i), j) || in_subtree(right_of(i), j),
    decreases j,
{
    lemma_child_facts(i);
    if parent_idx(j) == i {
        assert(j == left_of(i) || j == right_of(i));
    } else {
        lemma_subtree_split(i, parent_idx(j));
        if in_subtree(left_of(i), parent_idx(j)) {
            lemma_in_subtree_bounds(left_of(i), parent_idx(j));
            assert(in_subtree(left_of(i), j));
        } else {
            lemma_in_subtree_bounds(right_of(i), parent_idx(j));
            assert(in_subtree(right_of(i), j));
        }
    }
}

/// The subtrees of the two children of a slot share no index.
proof fn lemma_sibling_disjoint(i: int, j: int)
    requires
        0 <= i,
    ensures
        !(in_subtree(left_of(i), j) && in_subtree(right_of(i), j)),
    decreases j,
{
    lemma_child_facts(i);
    if in_subtree(left_of(i), j) && in_subtree(right_of(i), j) {
        lemma_in_subtree_bounds(right_of(i), j);
        if j == right_of(i) {
            assert(in_subtree(left_of(i), parent_idx(j)));
            lemma_in_subtree_bounds(left_of(i), parent_idx(j));
        } else {
            lemma_sibling_disjoint(i, parent_idx(j));
        }
    }
}

/// A binary search tree stored in a flat array of `capacity` slots, root at
/// index 0, children of slot `i` at `2 * i + 1` and `2 * i + 2`. The tree
/// also carries the state of its resumable in-order cursor: the index being
/// descended, the stack of indices descended through but not yet emitted,
/// and a flag marking a cursor on which `next` has not yet been called.
#[derive(Clone)]
pub struct GBST<K, V> {
    size: usize,
    capacity: usize,
    current: Option<usize>,
    stack: Vec<usize>,
    first: bool,
    vec: Vec<Option<GPair<K, V>>>,
}

impl<K, V> GBST<K, V> {
    /// Number of slots of the backing array.
    pub closed spec fn spec_cap(self) -> int {
        self.capacity as int
    }

    /// Number of occupied slots.
    pub closed spec fn spec_size(self) -> int {
        self.size as int
    }

    /// Slot `i` is occupied.
    pub closed spec fn occ(self, i: int) -> bool {
        0 <= i < self.vec@.len() && self.vec@[i] is Some
    }

    /// The key held by the occupied slot `i`.
    pub closed spec fn key_at(self, i: int) -> K
        recommends
            self.occ(i),
    {
        self.vec@[i].unwrap().key()
    }

    /// The value held by the occupied slot `i`.
    pub closed spec fn val_at(self, i: int) -> V
        recommends
            self.occ(i),
    {
        self.vec@[i].unwrap().val()
    }

    /// The cursor has not started: `next` has never been called on this tree.
    pub closed spec fn cursor_fresh(self) -> bool {
        self.first
    }

    spec fn len_ok(self) -> bool {
        self.vec@.len() == self.capacity
    }

    spec fn no_orphans(self) -> bool {
        forall|j: int| #[trigger] self.occ(j) && j > 0 ==> self.occ(parent_idx(j))
    }

    spec fn cursor_ok(self) -> bool {
        if self.first {
            self.current == Some(0usize) && self.stack@.len() == 0
        } else {
            &&& (match self.current {
                Some(c) => self.occ(c as int),
                None => true,
            })
            &&& (forall|k: int|
                0 <= k < self.stack@.len() ==> self.occ(#[trigger] self.stack@[k] as int))
        }
    }

    /// The occupied indices of the subtree rooted at `i`, in in-order
    /// traversal order: left subtree first, then `i`, then the right subtree.
    pub closed spec fn inorder_from(self, i: int) -> Seq<int>
        decreases self.spec_cap() - i,
    {
        if i < 0 || i >= self.spec_cap() || !self.occ(i) {
            Seq::empty()
        } else {
            (if left_of(i) < self.spec_cap() {
                self.inorder_from(left_of(i))
            } else {
                Seq::empty()
            }) + seq![i] + (if right_of(i) < self.spec_cap() {
                self.inorder_from(right_of(i))
            } else {
                Seq::empty()
            })
        }
    }

    /// The in-order sequence of the whole tree.
    pub open spec fn inorder_spec(self) -> Seq<int> {
        self.inorder_from(0)
    }

    spec fn size_ok(self) -> bool {
        self.size as int == self.inorder_spec().len()
    }

    /// The in-order sequence of an occupied slot splits into left subtree,
    /// the slot itself, and right subtree.
    proof fn lemma_inorder_decompose(self, i: int)
        requires
            0 <= i < self.spec_cap(),
            self.occ(i),
        ensures
            self.inorder_from(i) == self.inorder_from(left_of(i)) + seq![i] + self.inorder_from(
                right_of(i),
            ),
    {
        if left_of(i) >= self.spec_cap() {
            assert(self.inorder_from(left_of(i)) =~= Seq::<int>::empty());
        }
        if right_of(i) >= self.spec_cap() {
            assert(self.inorder_from(right_of(i)) =~= Seq::<int>::empty());
        }
        assert(self.inorder_from(i) =~= self.inorder_from(left_of(i)) + seq![i]
            + self.inorder_from(right_of(i)));
    }

    /// Below an empty slot every slot is empty: occupied slots always have
    /// occupied parents.
    proof fn lemma_unocc_subtree(self, i: int, j: int)
        requires
            self.no_orphans(),
            !self.occ(i),
            in_subtree(i, j),
        ensures
            !self.occ(j),
        decreases j,
    {
        if j != i {
            self.lemma_unocc_subtree(i, parent_idx(j));
        }
    }

    /// Two trees that agree on every slot of a subtree have the same in-order
    /// sequence for it.
    proof fn lemma_inorder_frame(self, other: Self, i: int)
        requires
            self.capacity == other.capacity,
            self.vec@.len() == other.vec@.len(),
            forall|j: int|
                #[trigger] in_subtree(i, j) && 0 <= j < self.vec@.len() ==> self.vec@[j]
                    == other.vec@[j],
        ensures
            self.inorder_from(i) == other.inorder_from(i),
        decreases self.spec_cap() - i,
    {
        if 0 <= i < self.spec_cap() {
            assert(in_subtree(i, i));
            if self.occ(i) {
                lemma_child_facts(i);
                if left_of(i) < self.spec_cap() {
                    assert forall|j: int|
                        #[trigger] in_subtree(left_of(i), j) && 0 <= j < self.vec@.len() implies self.vec@[j]
                        == other.vec@[j] by {
                        lemma_in_subtree_trans(i, left_of(i), j);
                    }
                    self.lemma_inorder_frame(other, left_of(i));
                }
                if right_of(i) < self.spec_cap() {
                    assert forall|j: int|
                        #[trigger] in_subtree(right_of(i), j) && 0 <= j < self.vec@.len() implies self.vec@[j]
                        == other.vec@[j] by {
                        lemma_in_subtree_trans(i, right_of(i), j);
                    }
                    self.lemma_inorder_frame(other, right_of(i));
                }
            }
        }
    }
}

impl<K: TotalOrder, V> GBST<K, V> {
    spec fn ordered(self) -> bool {
        &&& (forall|a: int, j: int|
            self.occ(a) && self.occ(j) && #[trigger] in_subtree(left_of(a), j) ==> lt(
                self.key_at(j),
                self.key_at(a),
            ))
        &&& (forall|a: int, j: int|
            self.occ(a) && self.occ(j) && #[trigger] in_subtree(right_of(a), j) ==> lt(
                self.key_at(a),
                self.key_at(j),
            ))
    }

    /// Well-formedness: the array has exactly `capacity` slots, `size` counts
    /// the occupied slots, every occupied slot other than the root has an
    /// occupied parent, the keys obey the search-tree order, and the cursor
    /// state points at occupied slots.
    pub closed spec fn wf(self) -> bool {
        &&& self.len_ok()
        &&& self.size_ok()
        &&& self.no_orphans()
        &&& self.ordered()
        &&& self.cursor_ok()
    }

    /// Some occupied slot holds a key equivalent to `k`.
    pub open spec fn has_key(self, k: K) -> bool {
        exists|j: int| #[trigger] self.occ(j) && eqv(self.key_at(j), k)
    }

    /// Where a probe for `key` starting at slot `i` ends. The probe follows
    /// the comparison with each occupied key: equivalent stops it, smaller
    /// sends it to the left child, larger to the right child; it stops as
    /// well on an empty slot or on a child index outside the array.
    pub closed spec fn probe_from(self, key: K, i: int) -> Probe
        decreases self.spec_cap() - i,
    {
        if i < 0 || i >= self.spec_cap() {
            Probe::Exhausted { idx: i }
        } else if !self.occ(i) {
            Probe::Lands { idx: i }
        } else if eqv(key, self.key_at(i)) {
            Probe::Duplicate { idx: i }
        } else {
            let c = if lt(key, self.key_at(i)) {
                left_of(i)
            } else {
                right_of(i)
            };
            if c < self.spec_cap() {
                self.probe_from(key, c)
            } else {
                Probe::Exhausted { idx: c }
            }
        }
    }

    /// Where a probe for `key` from the root ends; `insert` succeeds exactly
    /// when this lands in an empty slot.
    pub open spec fn probe(self, key: K) -> Probe {
        self.probe_from(key, 0)
    }

    /// A probe that lands does so in an empty slot of the subtree it
    /// started in.
    proof fn lemma_probe_lands(self, key: K, i: int)
        requires
            self.probe_from(key, i) is Lands,
        ensures
            ({
                let idx = probe_idx(self.probe_from(key, i));
                &&& in_subtree(i, idx)
                &&& 0 <= idx < self.spec_cap()
                &&& !self.occ(idx)
            }),
        decreases self.spec_cap() - i,
    {
        assert(in_subtree(i, i));
        if 0 <= i < self.spec_cap() && self.occ(i) {
            lemma_child_facts(i);
            let c = if lt(key, self.key_at(i)) {
                left_of(i)
            } else {
                right_of(i)
            };
            self.lemma_probe_lands(key, c);
            lemma_in_subtree_trans(i, c, probe_idx(self.probe_from(key, c)));
        }
    }

    /// The in-order sequence of a subtree visits only occupied slots of that
    /// subtree, and their keys come strictly ascending.
    proof fn lemma_inorder_props(self, i: int)
        requires
            self.ordered(),
        ensures
            forall|n: int|
                0 <= n < self.inorder_from(i).len() ==> self.occ(#[trigger] self.inorder_from(i)[n])
                    && in_subtree(i, self.inorder_from(i)[n]) && 0 <= self.inorder_from(i)[n]
                    < self.spec_cap(),
            forall|n: int, m: int|
                0 <= n < m < self.inorder_from(i).len() ==> lt(
                    self.key_at(self.inorder_from(i)[n]),
                    self.key_at(self.inorder_from(i)[m]),
                ),
        decreases self.spec_cap() - i,
    {
        if 0 <= i < self.spec_cap() && self.occ(i) {
            lemma_child_facts(i);
            self.lemma_inorder_decompose(i);
            let l = self.inorder_from(left_of(i));
            let r = self.inorder_from(right_of(i));
            let s = self.inorder_from(i);
            if left_of(i) < self.spec_cap() {
                self.lemma_inorder_props(left_of(i));
            }
            if right_of(i) < self.spec_cap() {
                self.lemma_inorder_props(right_of(i));
            }
            assert(in_subtree(i, i));
            assert forall|n: int| 0 <= n < s.len() implies self.occ(#[trigger] s[n]) && in_subtree(
                i,
                s[n],
            ) && 0 <= s[n] < self.spec_cap() by {
                if n < l.len() {
                    assert(s[n] == l[n]);
                    lemma_in_subtree_trans(i, left_of(i), l[n]);
                } else if n == l.len() {
                    assert(s[n] == i);
                } else {
                    assert(s[n] == r[n - l.len() - 1]);
                    lemma_in_subtree_trans(i, right_of(i), r[n - l.len() - 1]);
                }
            }
            assert forall|n: int, m: int| 0 <= n < m < s.len() implies lt(
                self.key_at(s[n]),
                self.key_at(s[m]),
            ) by {
                let x = s[n];
                let y = s[m];
                if n < l.len() {
                    assert(x == l[n]);
                    assert(lt(self.key_at(x), self.key_at(i)));
                    if m == l.len() {
                        assert(y == i);
                    } else if m > l.len() {
                        assert(y == r[m - l.len() - 1]);
                        assert(lt(self.key_at(i), self.key_at(y)));
                        crate::order::lemma_lt_transitive(
                            self.key_at(x),
                            self.key_at(i),
                            self.key_at(y),
                        );
                    }
                } else if n == l.len() {
                    assert(x == i);
                    assert(y == r[m - l.len() - 1]);
                    assert(lt(self.key_at(i), self.key_at(y)));
                } else {
                    assert(x == r[n - l.len() - 1]);
                    assert(y == r[m - l.len() - 1]);
                }
            }
        }
    }

    /// With one slot known to be free, the in-order sequence is strictly
    /// shorter than the capacity.
    proof fn lemma_inorder_len_below(self, f: int)
        requires
            self.ordered(),
            0 <= f < self.spec_cap(),
            !self.occ(f),
        ensures
            self.inorder_from(0).len() < self.spec_cap(),
    {
        let s = self.inorder_from(0);
        self.lemma_inorder_props(0);
        assert(s.no_duplicates()) by {
            assert forall|n: int, m: int|
                0 <= n < s.len() && 0 <= m < s.len() && n != m implies s[n] != s[m] by {
                if s[n] == s[m] {
                    if n < m {
                        assert(lt(self.key_at(s[n]), self.key_at(s[m])));
                    } else {
                        assert(lt(self.key_at(s[m]), self.key_at(s[n])));
                    }
                }
            }
        }
        s.unique_seq_to_set();
        let big = vstd::set_lib::set_int_range(0, self.spec_cap());
        vstd::set_lib::lemma_int_range(0, self.spec_cap());
        assert(s.to_set().subset_of(big.remove(f))) by {
            assert forall|x: int| s.to_set().contains(x) implies big.remove(f).contains(x) by {
                assert(s.contains(x));
                let n = choose|n: int| 0 <= n < s.len() && s[n] == x;
                assert(self.occ(s[n]) && 0 <= s[n] < self.spec_cap());
            }
        }
        assert(big.remove(f).len() == self.spec_cap() - 1) by {
            assert(big.contains(f));
        }
        vstd::set_lib::lemma_len_subset(s.to_set(), big.remove(f));
    }

    /// Writing a pair into the empty slot a probe lands in lengthens the
    /// in-order sequence of the subtree the probe started in by one.
    proof fn lemma_inorder_insert(self, post: Self, key: K, pair: GPair<K, V>, i: int)
        requires
            self.len_ok(),
            self.no_orphans(),
            self.probe_from(key, i) is Lands,
            post.capacity == self.capacity,
            post.vec@ == self.vec@.update(probe_idx(self.probe_from(key, i)), Some(pair)),
        ensures
            post.inorder_from(i).len() == self.inorder_from(i).len() + 1,
        decreases self.spec_cap() - i,
    {
        let idx = probe_idx(self.probe_from(key, i));
        self.lemma_probe_lands(key, i);
        if !self.occ(i) {
            // the probe lands right here: idx == i
            assert(self.inorder_from(i) =~= Seq::<int>::empty());
            assert(post.occ(i));
            post.lemma_inorder_decompose(i);
            lemma_child_facts(i);
            assert(!post.occ(left_of(i))) by {
                if left_of(i) < self.spec_cap() {
                    self.lemma_unocc_subtree(i, left_of(i));
                }
            }
            assert(!post.occ(right_of(i))) by {
                if right_of(i) < self.spec_cap() {
                    self.lemma_unocc_subtree(i, right_of(i));
                }
            }
            assert(post.inorder_from(left_of(i)) =~= Seq::<int>::empty());
            assert(post.inorder_from(right_of(i)) =~= Seq::<int>::empty());
        } else {
            lemma_child_facts(i);
            let c = if lt(key, self.key_at(i)) {
                left_of(i)
            } else {
                right_of(i)
            };
            let o = if lt(key, self.key_at(i)) {
                right_of(i)
            } else {
                left_of(i)
            };
            self.lemma_probe_lands(key, c);
            assert(in_subtree(c, idx));
            self.lemma_inorder_insert(post, key, pair, c);
            // the untouched sibling subtree keeps its sequence
            assert forall|j: int|
                #[trigger] in_subtree(o, j) && 0 <= j < self.vec@.len() implies self.vec@[j]
                == post.vec@[j] by {
                if j == idx {
                    lemma_sibling_disjoint(i, j);
                }
            }
            self.lemma_inorder_frame(post, o);
            assert(post.occ(i));
            self.lemma_inorder_decompose(i);
            post.lemma_inorder_decompose(i);
        }
    }

    /// Creates an empty tree with `capacity` slots. The capacity is fixed for
    /// the life of the tree: a descent that would need a slot beyond it makes
    /// the insert fail.
    pub fn new(capacity: usize) -> (t: GBST<K, V>)
        ensures
            t.wf(),
            t.spec_cap() == capacity as int,
            t.spec_size() == 0,
            forall|i: int| !t.occ(i),
            t.inorder_spec() == Seq::<int>::empty(),
            t.cursor_fresh(),
    {
        let mut v: Vec<Option<GPair<K, V>>> = Vec::new();
        while v.len() < capacity
            invariant
                v@.len() <= capacity,
                forall|i: int| 0 <= i < v@.len() ==> v@[i] is None,
            decreases capacity - v.len(),
        {
            v.push(None);
        }
        let t = GBST {
            size: 0,
            capacity,
            current: Some(0),
            stack: Vec::new(),
            first: true,
            vec: v,
        };
        proof {
            assert(t.inorder_from(0) =~= Seq::<int>::empty());
        }
        t
    }

    /// Runs the probe for `key` and hands back the empty slot it lands in,
    /// or `None` when the probe meets an equivalent key or runs out of
    /// capacity. Also collects the ordering facts that make writing the key
    /// into that slot safe.
    fn find_free_slot(&self, key: &K) -> (r: Option<usize>)
        requires
            self.wf(),
        ensures
            (match r {
                Some(i) => {
                    &&& self.probe(*key) == (Probe::Lands { idx: i as int })
                    &&& 0 <= (i as int) < self.spec_cap()
                    &&& !self.occ(i as int)
                    &&& i == 0 || self.occ(parent_idx(i as int))
                    &&& forall|a: int|
                        self.occ(a) && #[trigger] in_subtree(left_of(a), i as int) ==> lt(
                            *key,
                            self.key_at(a),
                        )
                    &&& forall|a: int|
                        self.occ(a) && #[trigger] in_subtree(right_of(a), i as int) ==> lt(
                            self.key_at(a),
                            *key,
                        )
                },
                None => !(self.probe(*key) is Lands),
            }),
    {
        if self.capacity == 0 {
            return None;
        }
        let mut i: usize = 0;
        loop
            invariant
                self.wf(),
                0 <= i < self.capacity,
                self.probe(*key) == self.probe_from(*key, i as int),
                i == 0 || self.occ(parent_idx(i as int)),
                forall|a: int|
                    self.occ(a) && #[trigger] in_subtree(left_of(a), i as int) ==> lt(
                        *key,
                        self.key_at(a),
                    ),
                forall|a: int|
                    self.occ(a) && #[trigger] in_subtree(right_of(a), i as int) ==> lt(
                        self.key_at(a),
                        *key,
                    ),
            decreases self.capacity - i,
        {
            match self.get_key(i) {
                None => {
                    return Some(i);
                },
                Some(k) => {
                    match key.cmp_key(k) {
                        KeyCmp::Equal => {
                            return None;
                        },
                        KeyCmp::Less => {
                            if i < self.capacity / 2 {
                                let c = 2 * i + 1;
                                proof {
                                    self.lemma_step_left(*key, i as int);
                                }
                                i = c;
                            } else {
                                proof {
                                    assert(left_of(i as int) >= self.spec_cap());
                                }
                                return None;
                            }
                        },
                        KeyCmp::Greater => {
                            if self.capacity >= 1 && i < (self.capacity - 1) / 2 {
                                let c = 2 * i + 2;
                                proof {
                                    self.lemma_step_right(*key, i as int);
                                }
                                i = c;
                            } else {
                                proof {
                                    assert(right_of(i as int) >= self.spec_cap());
                                }
                                return None;
                            }
                        },
                    }
                },
            }
        }
    }

    /// Descending to the left child keeps every ancestor ordering fact.
    proof fn lemma_step_left(self, key: K, i: int)
        requires
            0 <= i,
            self.occ(i),
            lt(key, self.key_at(i)),
            forall|a: int|
                self.occ(a) && #[trigger] in_subtree(left_of(a), i) ==> lt(key, self.key_at(a)),
            forall|a: int|
                self.occ(a) && #[trigger] in_subtree(right_of(a), i) ==> lt(self.key_at(a), key),
        ensures
            forall|a: int|
                self.occ(a) && #[trigger] in_subtree(left_of(a), left_of(i)) ==> lt(
                    key,
                    self.key_at(a),
                ),
            forall|a: int|
                self.occ(a) && #[trigger] in_subtree(right_of(a), left_of(i)) ==> lt(
                    self.key_at(a),
                    key,
                ),
    {
        lemma_child_facts(i);
        let c = left_of(i);
        assert forall|a: int| self.occ(a) && #[trigger] in_subtree(left_of(a), c) implies lt(
            key,
            self.key_at(a),
        ) by {
            if left_of(a) == c {
                assert(a == i);
            } else {
                lemma_in_subtree_bounds(left_of(a), c);
                assert(in_subtree(left_of(a), parent_idx(c)));
            }
        }
        assert forall|a: int| self.occ(a) && #[trigger] in_subtree(right_of(a), c) implies lt(
            self.key_at(a),
            key,
        ) by {
            if right_of(a) == c {
                assert(false);
            } else {
                lemma_in_subtree_bounds(right_of(a), c);
                assert(in_subtree(right_of(a), parent_idx(c)));
            }
        }
    }

    /// Descending to the right child keeps every ancestor ordering fact.
    proof fn lemma_step_right(self, key: K, i: int)
        requires
            0 <= i,
            self.occ(i),
            lt(self.key_at(i), key),
            forall|a: int|
                self.occ(a) && #[trigger] in_subtree(left_of(a), i) ==> lt(key, self.key_at(a)),
            forall|a: int|
                self.occ(a) && #[trigger] in_subtree(right_of(a), i) ==> lt(self.key_at(a), key),
        ensures
            forall|a: int|
                self.occ(a) && #[trigger] in_subtree(left_of(a), right_of(i)) ==> lt(
                    key,
                    self.key_at(a),
                ),
            forall|a: int|
                self.occ(a) && #[trigger] in_subtree(right_of(a), right_of(i)) ==> lt(
                    self.key_at(a),
                    key,
                ),
    {
        lemma_child_facts(i);
        let c = right_of(i);
        assert forall|a: int| self.occ(a) && #[trigger] in_subtree(left_of(a), c) implies lt(
            key,
            self.key_at(a),
        ) by {
            if left_of(a) == c {
                assert(false);
            } else {
                lemma_in_subtree_bounds(left_of(a), c);
                assert(in_subtree(left_of(a), parent_idx(c)));
            }
        }
        assert forall|a: int| self.occ(a) && #[trigger] in_subtree(right_of(a), c) implies lt(
            self.key_at(a),
            key,
        ) by {
            if right_of(a) == c {
                assert(a == i);
            } else {
                lemma_in_subtree_bounds(right_of(a), c);
                assert(in_subtree(right_of(a), parent_idx(c)));
            }
        }
    }

    /// Inserts `key` with `val`. Fails, leaving the tree untouched, when an
    /// equivalent key is already present or when the descent runs past the
    /// capacity; otherwise writes the pair into the slot the probe lands in.
    pub fn insert(&mut self, key: K, val: V) -> (r: bool)
        requires
            old(self).wf(),
        ensures
            final(self).wf(),
            final(self).spec_cap() == old(self).spec_cap(),
            final(self).cursor_fresh() == old(self).cursor_fresh(),
            r == (old(self).probe(key) is Lands),
            r ==> final(self).has_key(key),
            (match old(self).probe(key) {
                Probe::Lands { idx } => {
                    &&& !old(self).occ(idx)
                    &&& final(self).spec_size() == old(self).spec_size() + 1
                    &&& final(self).occ(idx)
                    &&& final(self).key_at(idx) == key
                    &&& final(self).val_at(idx) == val
                    &&& forall|j: int| j != idx ==> final(self).occ(j) == old(self).occ(j)
                    &&& forall|j: int|
                        j != idx && old(self).occ(j) ==> final(self).key_at(j) == old(
                            self,
                        ).key_at(j) && final(self).val_at(j) == old(self).val_at(j)
                },
                _ => *final(self) == *old(self),
            }),
    {
        let slot = self.find_free_slot(&key);
        match slot {
            None => false,
            Some(i) => {
                let ghost pre = *self;
                let ghost kk = key;
                proof {
                    pre.lemma_inorder_len_below(i as int);
                }
                self.vec[i] = Some(GPair::new(key, val));
                self.size = self.size + 1;
                proof {
                    let ii = i as int;
                    let post = *self;
                    assert(post.vec@ == pre.vec@.update(ii, Some(post.vec@[ii].unwrap())));
                    // the occupied slots only grew, and only at the landing index
                    assert forall|j: int| j != ii implies post.occ(j) == pre.occ(j) by {}
                    assert(post.occ(ii) && post.key_at(ii) == kk);
                    // no orphan appears: the landing slot hangs off an occupied parent
                    assert forall|j: int| #[trigger] post.occ(j) && j > 0 implies post.occ(
                        parent_idx(j),
                    ) by {
                        if j != ii {
                            assert(pre.occ(parent_idx(j)));
                        }
                    }
                    // the search-tree order still holds
                    assert forall|a: int, j: int|
                        post.occ(a) && post.occ(j) && #[trigger] in_subtree(left_of(a), j) implies lt(
                        post.key_at(j),
                        post.key_at(a),
                    ) by {
                        pre.lemma_insert_ordered_left(post, kk, ii, a, j);
                    }
                    assert forall|a: int, j: int|
                        post.occ(a) && post.occ(j) && #[trigger] in_subtree(right_of(a), j) implies lt(
                        post.key_at(a),
                        post.key_at(j),
                    ) by {
                        pre.lemma_insert_ordered_right(post, kk, ii, a, j);
                    }
                    // the size keeps counting the occupied slots
                    pre.lemma_inorder_insert(post, kk, post.vec@[ii].unwrap(), 0);
                    // the cursor still points at occupied slots
                    assert(post.cursor_ok()) by {
                        if !post.first {
                            assert forall|k: int| 0 <= k < post.stack@.len() implies post.occ(
                                #[trigger] post.stack@[k] as int,
                            ) by {
                                assert(pre.occ(pre.stack@[k] as int));
                            }
                        }
                    }
                    // the new slot holds a key equivalent to itself
                    K::lemma_total(kk, kk);
                    assert(post.occ(ii) && eqv(post.key_at(ii), kk));
                }
                true
            },
        }
    }

    /// After an insert at the landing slot, left subtrees still hold
    /// smaller keys.
    proof fn lemma_insert_ordered_left(self, post: Self, key: K, ii: int, a: int, j: int)
        requires
            self.wf(),
            0 <= ii < self.spec_cap(),
            !self.occ(ii),
            ii == 0 || self.occ(parent_idx(ii)),
            forall|b: int|
                self.occ(b) && #[trigger] in_subtree(left_of(b), ii) ==> lt(key, self.key_at(b)),
            forall|b: int|
                self.occ(b) && #[trigger] in_subtree(right_of(b), ii) ==> lt(self.key_at(b), key),
            post.capacity == self.capacity,
            post.vec@.len() == self.vec@.len(),
            forall|x: int| x != ii ==> post.occ(x) == self.occ(x),
            forall|x: int|
                x != ii && self.occ(x) ==> post.key_at(x) == self.key_at(x),
            post.occ(ii),
            post.key_at(ii) == key,
            post.occ(a),
            post.occ(j),
            in_subtree(left_of(a), j),
        ensures
            lt(post.key_at(j), post.key_at(a)),
    {
        lemma_in_subtree_bounds(left_of(a), j);
        if a == ii {
            // nothing occupied sits strictly below the landing slot
            if j != ii {
                assert(self.occ(j));
                lemma_child_facts(ii);
                lemma_in_subtree_trans(ii, left_of(ii), j);
                self.lemma_unocc_subtree(ii, j);
            } else {
                assert(left_of(ii) > ii);
            }
        } else if j == ii {
            assert(lt(key, self.key_at(a)));
        } else {
            assert(self.occ(a) && self.occ(j));
        }
    }

    /// After an insert at the landing slot, right subtrees still hold
    /// larger keys.
    proof fn lemma_insert_ordered_right(self, post: Self, key: K, ii: int, a: int, j: int)
        requires
            self.wf(),
            0 <= ii < self.spec_cap(),
            !self.occ(ii),
            ii == 0 || self.occ(parent_idx(ii)),
            forall|b: int|
                self.occ(b) && #[trigger] in_subtree(left_of(b), ii) ==> lt(key, self.key_at(b)),
            forall|b: int|
                self.occ(b) && #[trigger] in_subtree(right_of(b), ii) ==> lt(self.key_at(b), key),
            post.capacity == self.capacity,
            post.vec@.len() == self.vec@.len(),
            forall|x: int| x != ii ==> post.occ(x) == self.occ(x),
            forall|x: int|
                x != ii && self.occ(x) ==> post.key_at(x) == self.key_at(x),
            post.occ(ii),
            post.key_at(ii) == key,
            post.occ(a),
            post.occ(j),
            in_subtree(right_of(a), j),
        ensures
            lt(post.key_at(a), post.key_at(j)),
    {
        lemma_in_subtree_bounds(right_of(a), j);
        if a == ii {
            if j != ii {
                assert(self.occ(j));
                lemma_child_facts(ii);
                lemma_in_subtree_trans(ii, right_of(ii), j);
                self.lemma_unocc_subtree(ii, j);
            } else {
                assert(right_of(ii) > ii);
            }
        } else if j == ii {
            assert(lt(self.key_at(a), key));
        } else {
            assert(self.occ(a) && self.occ(j));
        }
    }

    /// Where a search for `key` starting at slot `i` ends: the index of the
    /// slot holding an equivalent key, or `None` when the descent meets an
    /// empty slot or runs off the array.
    pub closed spec fn search_from(self, key: K, i: int) -> Option<int>
        decreases self.spec_cap() - i,
    {
        if i < 0 || i >= self.spec_cap() || !self.occ(i) {
            None
        } else if eqv(key, self.key_at(i)) {
            Some(i)
        } else {
            let c = if lt(key, self.key_at(i)) {
                left_of(i)
            } else {
                right_of(i)
            };
            if c < self.spec_cap() {
                self.search_from(key, c)
            } else {
                None
            }
        }
    }

    /// When the tree holds a key equivalent to `key` in the subtree the
    /// descent starts in, the descent cannot miss it.
    proof fn lemma_descent_finds(self, key: K, i: int, j: int)
        requires
            self.wf(),
            self.occ(j),
            in_subtree(i, j),
            eqv(self.key_at(j), key),
        ensures
            self.search_from(key, i) is Some,
            self.probe_from(key, i) is Duplicate,
        decreases self.spec_cap() - i,
    {
        // the start of the descent is occupied, else nothing below it would be
        assert(self.occ(i)) by {
            if !self.occ(i) {
                self.lemma_unocc_subtree(i, j);
            }
        }
        assert(0 <= i < self.spec_cap());
        lemma_child_facts(i);
        if !eqv(key, self.key_at(i)) {
            let ki = self.key_at(i);
            let kj = self.key_at(j);
            assert(j != i);
            lemma_subtree_split(i, j);
            K::lemma_total(key, ki);
            if lt(key, ki) {
                // an equivalent key cannot sit in the larger right subtree
                if in_subtree(right_of(i), j) {
                    assert(lt(ki, kj));
                    crate::order::lemma_lt_eqv_right(ki, kj, key);
                    crate::order::lemma_lt_transitive(key, ki, key);
                }
                assert(in_subtree(left_of(i), j));
                lemma_in_subtree_bounds(left_of(i), j);
                self.lemma_descent_finds(key, left_of(i), j);
            } else {
                assert(lt(ki, key));
                if in_subtree(left_of(i), j) {
                    assert(lt(kj, ki));
                    crate::order::lemma_eqv_lt_left(key, kj, ki);
                    crate::order::lemma_lt_transitive(ki, key, ki);
                }
                assert(in_subtree(right_of(i), j));
                lemma_in_subtree_bounds(right_of(i), j);
                self.lemma_descent_finds(key, right_of(i), j);
            }
        }
    }

    /// A successful search really found an equivalent key.
    proof fn lemma_search_sound(self, key: K, i: int)
        requires
            self.search_from(key, i) is Some,
        ensures
            ({
                let f = self.search_from(key, i).unwrap();
                &&& self.occ(f)
                &&& eqv(self.key_at(f), key)
            }),
        decreases self.spec_cap() - i,
    {
        if 0 <= i < self.spec_cap() && self.occ(i) && !eqv(key, self.key_at(i)) {
            let c = if lt(key, self.key_at(i)) {
                left_of(i)
            } else {
                right_of(i)
            };
            self.lemma_search_sound(key, c);
        }
    }

    /// Searches for `key` by binary descent. Returns the index of the slot
    /// whose key is equivalent to `key`, or `None` exactly when no occupied
    /// slot holds such a key.
    pub fn contains_key(&self, key: &K) -> (r: Option<usize>)
        requires
            self.wf(),
        ensures
            r is Some <==> self.has_key(*key),
            (match r {
                Some(i) => {
                    &&& self.occ(i as int)
                    &&& eqv(self.key_at(i as int), *key)
                    &&& self.search_from(*key, 0) == Some(i as int)
                },
                None => self.search_from(*key, 0) is None,
            }),
    {
        proof {
            if self.has_key(*key) {
                let j = choose|j: int| self.occ(j) && eqv(self.key_at(j), *key);
                lemma_root_subtree(j);
                self.lemma_descent_finds(*key, 0, j);
            }
            if self.search_from(*key, 0) is Some {
                self.lemma_search_sound(*key, 0);
            }
        }
        if self.capacity == 0 {
            return None;
        }
        let mut i: usize = 0;
        loop
            invariant
                self.wf(),
                0 <= i < self.capacity,
                self.search_from(*key, 0) == self.search_from(*key, i as int),
                self.search_from(*key, 0) is Some ==> self.has_key(*key),
                self.has_key(*key) ==> self.search_from(*key, 0) is Some,
            decreases self.capacity - i,
        {
            match self.get_key(i) {
                None => {
                    return None;
                },
                Some(k) => {
                    match key.cmp_key(k) {
                        KeyCmp::Equal => {
                            proof {
                                assert(self.occ(i as int) && eqv(self.key_at(i as int), *key));
                            }
                            return Some(i);
                        },
                        KeyCmp::Less => {
                            if i < self.capacity / 2 {
                                i = 2 * i + 1;
                            } else {
                                proof {
                                    assert(left_of(i as int) >= self.spec_cap());
                                }
                                return None;
                            }
                        },
                        KeyCmp::Greater => {
                            if i < (self.capacity - 1) / 2 {
                                i = 2 * i + 2;
                            } else {
                                proof {
                                    assert(right_of(i as int) >= self.spec_cap());
                                }
                                return None;
                            }
                        },
                    }
                },
            }
        }
    }

    /// Walks the subtree at `i` in order, appending each occupied index.
    fn inorder_walk(&self, i: usize, out: &mut Vec<usize>)
        requires
            self.wf(),
            0 <= (i as int) < self.spec_cap(),
        ensures
            to_indices(final(out)@) == to_indices(old(out)@) + self.inorder_from(i as int),
        decreases self.spec_cap() - i,
    {
        let ghost start = out@;
        match self.get_key(i) {
            None => {
                proof {
                    assert(self.inorder_from(i as int) =~= Seq::<int>::empty());
                    assert(to_indices(final(out)@) =~= to_indices(start) + self.inorder_from(
                        i as int,
                    ));
                }
            },
            Some(_) => {
                proof {
                    self.lemma_inorder_decompose(i as int);
                }
                if i < self.capacity / 2 {
                    self.inorder_walk(2 * i + 1, out);
                } else {
                    proof {
                        assert(left_of(i as int) >= self.spec_cap());
                        assert(self.inorder_from(left_of(i as int)) =~= Seq::<int>::empty());
                    }
                }
                let ghost mid = out@;
                out.push(i);
                proof {
                    assert(to_indices(out@) =~= to_indices(mid).push(i as int));
                }
                let ghost mid2 = out@;
                if i < (self.capacity - 1) / 2 {
                    self.inorder_walk(2 * i + 2, out);
                } else {
                    proof {
                        assert(right_of(i as int) >= self.spec_cap());
                        assert(self.inorder_from(right_of(i as int)) =~= Seq::<int>::empty());
                    }
                }
                proof {
                    assert(to_indices(final(out)@) =~= to_indices(start) + self.inorder_from(
                        i as int,
                    ));
                }
            },
        }
    }

    /// Appends the in-order sequence of occupied indices to `ordered`.
    pub fn internal_inorder(&self, ordered: &mut Vec<usize>)
        requires
            self.wf(),
        ensures
            to_indices(final(ordered)@) == to_indices(old(ordered)@) + self.inorder_spec(),
    {
        if self.capacity > 0 {
            self.inorder_walk(0, ordered);
        } else {
            proof {
                assert(self.inorder_spec() =~= Seq::<int>::empty());
                assert(to_indices(final(ordered)@) =~= to_indices(old(ordered)@)
                    + self.inorder_spec());
            }
        }
    }

    /// The occupied indices in ascending key order, eagerly collected.
    pub fn inorder(&self) -> (r: Vec<usize>)
        requires
            self.wf(),
        ensures
            to_indices(r@) == self.inorder_spec(),
            r@.len() == self.spec_size(),
    {
        let mut ordered: Vec<usize> = Vec::new();
        proof {
            assert(to_indices(Seq::<usize>::empty()) =~= Seq::<int>::empty());
        }
        self.internal_inorder(&mut ordered);
        ordered
    }

    /// A probe that reports a duplicate stopped on an occupied slot holding
    /// an equivalent key.
    proof fn lemma_probe_sound(self, key: K, i: int)
        requires
            self.probe_from(key, i) is Duplicate,
        ensures
            ({
                let d = probe_idx(self.probe_from(key, i));
                &&& self.occ(d)
                &&& eqv(self.key_at(d), key)
            }),
        decreases self.spec_cap() - i,
    {
        if 0 <= i < self.spec_cap() && self.occ(i) && !eqv(key, self.key_at(i)) {
            let c = if lt(key, self.key_at(i)) {
                left_of(i)
            } else {
                right_of(i)
            };
            self.lemma_probe_sound(key, c);
        }
    }

    /// The law of duplicate rejection: an insert probe reports a duplicate
    /// exactly when the tree already holds an equivalent key, so `insert`
    /// with a present key returns `false` and leaves the tree unchanged,
    /// while a capacity-exhausted probe only happens for absent keys.
    pub proof fn lemma_insert_outcome(self, k: K)
        requires
            self.wf(),
        ensures
            self.has_key(k) <==> self.probe(k) is Duplicate,
            self.has_key(k) ==> !(self.probe(k) is Lands),
    {
        if self.has_key(k) {
            let j = choose|j: int| self.occ(j) && eqv(self.key_at(j), k);
            lemma_root_subtree(j);
            self.lemma_descent_finds(k, 0, j);
        }
        if self.probe(k) is Duplicate {
            self.lemma_probe_sound(k, 0);
        }
    }

    /// The law of duplicate retention: once a pair occupies slot `idx`, an
    /// insert with an equivalent key reports a duplicate — so, by the
    /// contract of `insert`, it returns `false` and changes nothing — and a
    /// search for that key finds `idx` itself, where the first value still
    /// sits.
    pub proof fn lemma_duplicate_insert(self, idx: int, k: K)
        requires
            self.wf(),
            self.occ(idx),
            eqv(self.key_at(idx), k),
        ensures
            self.probe(k) is Duplicate,
            self.search_from(k, 0) == Some(idx),
    {
        lemma_root_subtree(idx);
        self.lemma_descent_finds(k, 0, idx);
        self.lemma_search_sound(k, 0);
        let f = self.search_from(k, 0).unwrap();
        assert(eqv(self.key_at(f), self.key_at(idx))) by {
            K::lemma_transitive(self.key_at(f), k, self.key_at(idx));
            K::lemma_transitive(self.key_at(idx), k, self.key_at(f));
        }
        self.lemma_key_unique(f, idx);
    }

    /// The law of key uniqueness: no two occupied slots hold equivalent
    /// keys, so a found index identifies the pair completely.
    pub proof fn lemma_key_unique(self, i: int, j: int)
        requires
            self.wf(),
            self.occ(i),
            self.occ(j),
            eqv(self.key_at(i), self.key_at(j)),
        ensures
            i == j,
    {
        lemma_root_subtree(i);
        lemma_root_subtree(j);
        self.lemma_unique_rec(0, i, j);
    }

    proof fn lemma_unique_rec(self, a: int, i: int, j: int)
        requires
            self.wf(),
            0 <= a,
            self.occ(i),
            self.occ(j),
            eqv(self.key_at(i), self.key_at(j)),
            in_subtree(a, i),
            in_subtree(a, j),
        ensures
            i == j,
        decreases self.spec_cap() - a,
    {
        lemma_in_subtree_bounds(a, i);
        lemma_in_subtree_bounds(a, j);
        assert(self.occ(a)) by {
            if !self.occ(a) {
                self.lemma_unocc_subtree(a, i);
            }
        }
        lemma_child_facts(a);
        if i == a && j != a {
            // a key equivalent to the root of this subtree cannot sit below it
            lemma_subtree_split(a, j);
            assert(false);
        } else if j == a && i != a {
            lemma_subtree_split(a, i);
            assert(false);
        } else if i != a && j != a {
            lemma_subtree_split(a, i);
            lemma_subtree_split(a, j);
            if in_subtree(left_of(a), i) && in_subtree(left_of(a), j) {
                lemma_in_subtree_bounds(left_of(a), i);
                self.lemma_unique_rec(left_of(a), i, j);
            } else if in_subtree(right_of(a), i) && in_subtree(right_of(a), j) {
                lemma_in_subtree_bounds(right_of(a), i);
                self.lemma_unique_rec(right_of(a), i, j);
            } else if in_subtree(left_of(a), i) && in_subtree(right_of(a), j) {
                crate::order::lemma_lt_transitive(
                    self.key_at(i),
                    self.key_at(a),
                    self.key_at(j),
                );
            } else {
                crate::order::lemma_lt_transitive(
                    self.key_at(j),
                    self.key_at(a),
                    self.key_at(i),
                );
            }
        }
    }

    /// The law of in-order traversal: it visits exactly the occupied slots,
    /// one `size`'s worth of them, with keys strictly ascending.
    pub proof fn lemma_inorder_sorted(self)
        requires
            self.wf(),
        ensures
            self.inorder_spec().len() == self.spec_size(),
            forall|n: int|
                0 <= n < self.inorder_spec().len() ==> self.occ(
                    #[trigger] self.inorder_spec()[n],
                ),
            forall|n: int, m: int|
                0 <= n < m < self.inorder_spec().len() ==> lt(
                    self.key_at(self.inorder_spec()[n]),
                    self.key_at(self.inorder_spec()[m]),
                ),
    {
        self.lemma_inorder_props(0);
    }

    /// What the cursor still has to emit once the indices on `st` have been
    /// descended through: each stacked index, from the top of the stack down,
    /// followed by its right subtree.
    spec fn stack_rem(self, st: Seq<usize>) -> Seq<int>
        decreases st.len(),
    {
        if st.len() == 0 {
            Seq::empty()
        } else {
            seq![st.last() as int] + self.inorder_from(right_of(st.last() as int))
                + self.stack_rem(st.drop_last())
        }
    }

    /// The indices the cursor has yet to emit, in order. A fresh cursor has
    /// the whole in-order sequence ahead of it.
    pub closed spec fn remaining(self) -> Seq<int> {
        if self.first {
            self.inorder_from(0)
        } else {
            (match self.current {
                Some(c) => self.inorder_from(c as int),
                None => Seq::empty(),
            }) + self.stack_rem(self.stack@)
        }
    }

    /// A fresh cursor has exactly the in-order sequence ahead of it.
    pub proof fn lemma_fresh_cursor(self)
        requires
            self.cursor_fresh(),
        ensures
            self.remaining() == self.inorder_spec(),
    {
    }

    /// Two trees with the same slots agree on every traversal notion, no
    /// matter how their cursors differ.
    proof fn lemma_slots_frame(self, other: Self)
        requires
            self.vec@ == other.vec@,
            self.capacity == other.capacity,
        ensures
            forall|i: int| #[trigger] self.inorder_from(i) == other.inorder_from(i),
            forall|st: Seq<usize>| #[trigger] self.stack_rem(st) == other.stack_rem(st),
            forall|j: int|
                #![trigger self.occ(j)]
                #![trigger other.occ(j)]
                self.occ(j) == other.occ(j),
            forall|j: int|
                #![trigger self.key_at(j)]
                #![trigger other.key_at(j)]
                self.key_at(j) == other.key_at(j),
            forall|j: int|
                #![trigger self.val_at(j)]
                #![trigger other.val_at(j)]
                self.val_at(j) == other.val_at(j),
            self.no_orphans() == other.no_orphans(),
            self.ordered() == other.ordered(),
    {
        assert forall|i: int| #[trigger] self.inorder_from(i) == other.inorder_from(i) by {
            if 0 <= i < self.spec_cap() {
                self.lemma_inorder_frame(other, i);
            } else {
                assert(self.inorder_from(i) =~= Seq::<int>::empty());
                assert(other.inorder_from(i) =~= Seq::<int>::empty());
            }
        }
        assert forall|st: Seq<usize>| #[trigger] self.stack_rem(st) == other.stack_rem(st) by {
            self.lemma_stack_rem_frame(other, st);
        }
        if self.no_orphans() {
            assert forall|j: int| #[trigger] other.occ(j) && j > 0 implies other.occ(
                parent_idx(j),
            ) by {
                assert(self.occ(j));
            }
        }
        if other.no_orphans() {
            assert forall|j: int| #[trigger] self.occ(j) && j > 0 implies self.occ(
                parent_idx(j),
            ) by {
                assert(other.occ(j));
            }
        }
        if self.ordered() {
            assert forall|a: int, j: int|
                other.occ(a) && other.occ(j) && #[trigger] in_subtree(left_of(a), j) implies lt(
                other.key_at(j),
                other.key_at(a),
            ) by {
                assert(self.occ(a) && self.occ(j));
            }
            assert forall|a: int, j: int|
                other.occ(a) && other.occ(j) && #[trigger] in_subtree(right_of(a), j) implies lt(
                other.key_at(a),
                other.key_at(j),
            ) by {
                assert(self.occ(a) && self.occ(j));
            }
        }
        if other.ordered() {
            assert forall|a: int, j: int|
                self.occ(a) && self.occ(j) && #[trigger] in_subtree(left_of(a), j) implies lt(
                self.key_at(j),
                self.key_at(a),
            ) by {
                assert(other.occ(a) && other.occ(j));
            }
            assert forall|a: int, j: int|
                self.occ(a) && self.occ(j) && #[trigger] in_subtree(right_of(a), j) implies lt(
                self.key_at(a),
                self.key_at(j),
            ) by {
                assert(other.occ(a) && other.occ(j));
            }
        }
    }

    proof fn lemma_stack_rem_frame(self, other: Self, st: Seq<usize>)
        requires
            self.vec@ == other.vec@,
            self.capacity == other.capacity,
        ensures
            self.stack_rem(st) == other.stack_rem(st),
        decreases st.len(),
    {
        if st.len() > 0 {
            let x = st.last() as int;
            if 0 <= right_of(x) < self.spec_cap() {
                self.lemma_inorder_frame(other, right_of(x));
            } else {
                assert(self.inorder_from(right_of(x)) =~= Seq::<int>::empty());
                assert(other.inorder_from(right_of(x)) =~= Seq::<int>::empty());
            }
            self.lemma_stack_rem_frame(other, st.drop_last());
        }
    }

    /// Emits the next index of the in-order traversal, or `None` once the
    /// traversal is over. The cursor suspends between calls; the emitted
    /// indices, call after call, spell out exactly `remaining()` as it stood
    /// before each call.
    #[verifier::rlimit(60)]
    pub fn next(&mut self) -> (r: Option<usize>)
        requires
            old(self).wf(),
        ensures
            final(self).wf(),
            final(self).spec_cap() == old(self).spec_cap(),
            final(self).spec_size() == old(self).spec_size(),
            forall|j: int| final(self).occ(j) == old(self).occ(j),
            forall|j: int|
                old(self).occ(j) ==> final(self).key_at(j) == old(self).key_at(j)
                    && final(self).val_at(j) == old(self).val_at(j),
            final(self).inorder_spec() == old(self).inorder_spec(),
            (if old(self).remaining().len() > 0 {
                &&& r == Some(old(self).remaining()[0] as usize)
                &&& final(self).occ(old(self).remaining()[0])
                &&& final(self).remaining() == old(self).remaining().drop_first()
            } else {
                &&& r is None
                &&& final(self).remaining() == Seq::<int>::empty()
            }),
    {
        let ghost orig = *self;
        let ghost rem = old(self).remaining();
        if self.first {
            self.first = false;
            let rooted = match self.get_key(0) {
                Some(_) => true,
                None => false,
            };
            self.current = if rooted {
                Some(0)
            } else {
                None
            };
            self.stack = Vec::new();
            proof {
                orig.lemma_slots_frame(*self);
                assert(self.stack_rem(self.stack@) =~= Seq::<int>::empty());
                if !rooted {
                    assert(self.inorder_from(0) =~= Seq::<int>::empty());
                }
                assert(self.remaining() =~= rem);
            }
        }
        while self.current.is_some()
            invariant
                self.wf(),
                !self.first,
                self.vec@ == orig.vec@,
                self.capacity == orig.capacity,
                self.size == orig.size,
                self.remaining() == rem,
            decreases (match self.current {
                Some(c) => self.spec_cap() - c,
                None => 0,
            }),
        {
            let ghost before = *self;
            let x = self.current.unwrap();
            self.stack.push(x);
            let lefted = if x < self.capacity / 2 {
                match self.get_key(2 * x + 1) {
                    Some(_) => true,
                    None => false,
                }
            } else {
                false
            };
            self.current = if lefted {
                Some(2 * x + 1)
            } else {
                None
            };
            proof {
                before.lemma_slots_frame(*self);
                let xi = x as int;
                assert(before.occ(xi));
                assert(xi < self.spec_cap());
                self.lemma_inorder_decompose(xi);
                assert(self.stack@.drop_last() =~= before.stack@);
                assert(self.stack@.last() == x);
                if !lefted {
                    assert(self.inorder_from(left_of(xi)) =~= Seq::<int>::empty());
                }
                assert(self.remaining() =~= rem);
            }
        }
        let ghost atpop = *self;
        let popped = self.stack.pop();
        match popped {
            None => {
                proof {
                    orig.lemma_slots_frame(*self);
                    assert(orig == *old(self));
                    assert(self.inorder_from(0) == orig.inorder_from(0));
                    assert(rem =~= Seq::<int>::empty());
                }
                None
            },
            Some(x) => {
                let ghost before = *self;
                let righted = if self.capacity >= 1 && x < (self.capacity - 1) / 2 {
                    match self.get_key(2 * x + 2) {
                        Some(_) => true,
                        None => false,
                    }
                } else {
                    false
                };
                self.current = if righted {
                    Some(2 * x + 2)
                } else {
                    None
                };
                proof {
                    let xi = x as int;
                    orig.lemma_slots_frame(*self);
                    atpop.lemma_slots_frame(*self);
                    atpop.lemma_slots_frame(before);
                    // the stack the loop left behind is the popped stack plus `x`
                    assert(atpop.stack@ =~= before.stack@.push(x));
                    assert(rem == atpop.stack_rem(atpop.stack@));
                    assert(atpop.stack_rem(before.stack@.push(x)) == seq![xi]
                        + atpop.inorder_from(right_of(xi)) + atpop.stack_rem(before.stack@)) by {
                        assert(before.stack@.push(x).drop_last() =~= before.stack@);
                    }
                    // the emitted slot is occupied: the loop only stacked occupied slots
                    assert(atpop.stack@[atpop.stack@.len() - 1] == x);
                    assert(atpop.occ(xi));
                    if !righted {
                        assert(atpop.inorder_from(right_of(xi)) =~= Seq::<int>::empty());
                    }
                    assert(self.remaining() =~= rem.drop_first());
                    assert(rem[0] == xi);
                }
                Some(x)
            },
        }
    }

    /// Advances the cursor and hands back the key it emits, or `None` once
    /// the traversal is over.
    pub fn iter(&mut self) -> (r: Option<&K>)
        requires
            old(self).wf(),
        ensures
            final(self).wf(),
            final(self).spec_cap() == old(self).spec_cap(),
            final(self).spec_size() == old(self).spec_size(),
            forall|j: int| final(self).occ(j) == old(self).occ(j),
            forall|j: int|
                old(self).occ(j) ==> final(self).key_at(j) == old(self).key_at(j)
                    && final(self).val_at(j) == old(self).val_at(j),
            final(self).inorder_spec() == old(self).inorder_spec(),
            (if old(self).remaining().len() > 0 {
                &&& (match r {
                    Some(k) => *k == final(self).key_at(old(self).remaining()[0]),
                    None => false,
                })
                &&& final(self).remaining() == old(self).remaining().drop_first()
            } else {
                &&& r is None
                &&& final(self).remaining() == Seq::<int>::empty()
            }),
    {
        match self.next() {
            Some(x) => self.get_key(x),
            None => None,
        }
    }
    pub fn is_empty(&self) -> (r: bool)
        ensures
            r == (self.spec_size() == 0),
    {
        self.size == 0
    }

    /// The fixed number of slots of the backing array.
    pub fn capacity(&self) -> (r: usize)
        ensures
            r as int == self.spec_cap(),
    {
        self.capacity
    }

    /// The number of pairs currently in the tree.
    pub fn size(&self) -> (r: usize)
        ensures
            r as int == self.spec_size(),
    {
        self.size
    }

    /// The key at `index`, or `None` if `index` is out of range or the slot
    /// is empty.
    pub fn get_key(&self, index: usize) -> (r: Option<&K>)
        ensures
            (match r {
                Some(k) => self.occ(index as int) && *k == self.key_at(index as int),
                None => !self.occ(index as int),
            }),
    {
        if index >= self.vec.len() {
            return None;
        }
        match &self.vec[index] {
            Some(pair) => Some(&pair.0),
            None => None,
        }
    }

    /// The value at `index`, or `None` if `index` is out of range or the slot
    /// is empty.
    pub fn get_val(&self, index: usize) -> (r: Option<&V>)
        ensures
            (match r {
                Some(v) => self.occ(index as int) && *v == self.val_at(index as int),
                None => !self.occ(index as int),
            }),
    {
        if index >= self.vec.len() {
            return None;
        }
        match &self.vec[index] {
            Some(pair) => Some(&pair.1),
            None => None,
        }
    }
}

} // verus!
