//! A B+Tree from 64-bit keys to byte values.
use vstd::prelude::*;

verus! {

/// Bounds the fan-out: a leaf holds at most `2 * ORDER - 1` keys and an
/// internal node at most `2 * ORDER` children.
pub const ORDER: usize = 4;

/// An entry of the index as a mathematical value: its key and its bytes.
pub type Entry = (u64, Seq<u8>);

/// A key and the bytes stored under it.
#[derive(Debug, Clone, PartialEq, Eq)]
pub struct KeyValuePair {
    pub key: u64,
    pub value: Vec<u8>,
}

impl View for KeyValuePair {
    type V = Entry;

    open spec fn view(&self) -> Entry {
        (self.key, self.value@)
    }
}

/// A node of the tree. A leaf keeps its keys beside its pairs, in the same
/// order; an internal node keeps separator keys between its children, which
/// it owns.
#[derive(Debug, PartialEq, Eq)]
pub enum Node {
    Internal { keys: Vec<u64>, children: Vec<Node> },
    Leaf { keys: Vec<u64>, values: Vec<KeyValuePair> },
}

/// The entries of a sequence of subtrees, left to right.
pub open spec fn flatten(cs: Seq<Node>) -> Seq<Entry>
    decreases cs,
{
    if cs.len() == 0 {
        Seq::empty()
    } else {
        flatten(cs.drop_last()) + cs.last().entries()
    }
}

impl Node {
    /// The entries held by the leaves under this node, left to right.
    pub open spec fn entries(self) -> Seq<Entry>
        decreases self,
    {
        match self {
            Node::Leaf { values, .. } => values@.map_values(|p: KeyValuePair| p@),
            Node::Internal { children, .. } => flatten(children@),
        }
    }
}

/// Keys in non-decreasing order.
pub open spec fn sorted_keys(s: Seq<u64>) -> bool {
    forall|i: int, j: int| 0 <= i <= j < s.len() ==> s[i] <= s[j]
}

/// Entries in strictly increasing key order: sorted, and no key twice.
pub open spec fn strictly_sorted(e: Seq<Entry>) -> bool {
    forall|i: int, j: int| 0 <= i < j < e.len() ==> e[i].0 < e[j].0
}

/// Every entry's key lies in the half-open range `(lo, hi]`.
pub open spec fn within(e: Seq<Entry>, lo: int, hi: int) -> bool {
    forall|i: int| 0 <= i < e.len() ==> lo < #[trigger] e[i].0 && e[i].0 <= hi
}

/// Whether some entry has key `k`.
pub open spec fn has_key(e: Seq<Entry>, k: u64) -> bool {
    exists|i: int| 0 <= i < e.len() && #[trigger] e[i].0 == k
}

/// The keys of the entries, in their order.
pub open spec fn keys_of(e: Seq<Entry>) -> Seq<u64> {
    e.map_values(|x: Entry| x.0)
}

/// The `i`-th boundary of a node with separators `keys` over the range
/// `(lo, hi]`: child `i` holds the keys in `(bound(i - 1), bound(i)]`.
pub open spec fn bound(keys: Seq<u64>, lo: int, hi: int, i: int) -> int {
    if i < 0 {
        lo
    } else if i >= keys.len() {
        hi
    } else {
        keys[i] as int
    }
}

impl Node {
    /// A well-formed subtree of height `h` whose keys all lie in `(lo, hi]`:
    /// leaves keep their key list in step with their sorted entries, and each
    /// internal node has at least one separator, strictly increasing and
    /// strictly inside `(lo, hi)`, and one child more than separators, each
    /// child of height `h - 1` holding exactly the keys between its two
    /// separators.
    pub open spec fn wf(self, h: nat, lo: int, hi: int) -> bool
        decreases self,
    {
        match self {
            Node::Leaf { keys, values } => {
                &&& h == 0
                &&& keys@.len() == values@.len()
                &&& forall|i: int| 0 <= i < keys@.len() ==> keys@[i] == #[trigger] values@[i].key
                &&& strictly_sorted(self.entries())
                &&& within(self.entries(), lo, hi)
            },
            Node::Internal { keys, children } => {
                &&& h > 0
                &&& keys@.len() >= 1
                &&& children@.len() == keys@.len() + 1
                &&& forall|i: int, j: int|
                    -1 <= i < j <= keys@.len() ==> bound(keys@, lo, hi, i) < bound(
                        keys@,
                        lo,
                        hi,
                        j,
                    )
                &&& forall|i: int|
                    0 <= i < children@.len() ==> (#[trigger] children@[i]).wf(
                        (h - 1) as nat,
                        bound(keys@, lo, hi, i - 1),
                        bound(keys@, lo, hi, i),
                    )
            },
        }
    }

    /// The number of children of an internal node; none for a leaf.
    pub open spec fn child_count(self) -> int {
        match self {
            Node::Leaf { .. } => 0,
            Node::Internal { children, .. } => children@.len() as int,
        }
    }

    /// Every node of the subtree is within its capacity.
    pub open spec fn fits(self) -> bool
        decreases self,
    {
        match self {
            Node::Leaf { keys, .. } => keys@.len() <= 2 * ORDER - 1,
            Node::Internal { children, .. } => {
                &&& children@.len() <= 2 * ORDER
                &&& forall|i: int| 0 <= i < children@.len() ==> (#[trigger] children@[i]).fits()
            },
        }
    }

    /// Every node below this one is within its capacity, and this one holds
    /// at most one item over it.
    pub open spec fn fits_but_top(self) -> bool {
        match self {
            Node::Leaf { keys, .. } => keys@.len() <= 2 * ORDER,
            Node::Internal { children, .. } => {
                &&& children@.len() <= 2 * ORDER + 1
                &&& forall|i: int| 0 <= i < children@.len() ==> (#[trigger] children@[i]).fits()
            },
        }
    }
}

pub proof fn lemma_flatten_concat(a: Seq<Node>, b: Seq<Node>)
    ensures
        flatten(a + b) == flatten(a) + flatten(b),
    decreases b.len(),
{
    if b.len() == 0 {
        assert(a + b =~= a);
        assert(flatten(b) =~= Seq::<Entry>::empty());
        assert(flatten(a) + flatten(b) =~= flatten(a));
    } else {
        assert((a + b).drop_last() =~= a + b.drop_last());
        lemma_flatten_concat(a, b.drop_last());
        assert(flatten(a + b) =~= flatten(a) + flatten(b));
    }
}

pub proof fn lemma_flatten_single(c: Node)
    ensures
        flatten(seq![c]) == c.entries(),
{
    assert(seq![c].drop_last() =~= Seq::<Node>::empty());
    assert(flatten(Seq::<Node>::empty()) =~= Seq::<Entry>::empty());
    assert(flatten(seq![c]) =~= c.entries());
}

/// A sorted run of entries within `(lo, mid]` followed by a sorted run within
/// `(mid, hi]` is sorted and within `(lo, hi]`.
pub proof fn lemma_join_sorted(a: Seq<Entry>, b: Seq<Entry>, lo: int, mid: int, hi: int)
    requires
        strictly_sorted(a),
        strictly_sorted(b),
        within(a, lo, mid),
        within(b, mid, hi),
        lo <= mid <= hi,
    ensures
        strictly_sorted(a + b),
        within(a + b, lo, hi),
{
    assert forall|i: int, j: int| 0 <= i < j < (a + b).len() implies (a + b)[i].0 < (a
        + b)[j].0 by {
        if j < a.len() {
        } else if i >= a.len() {
            assert((a + b)[i] == b[i - a.len()]);
            assert((a + b)[j] == b[j - a.len()]);
        } else {
            assert((a + b)[i] == a[i]);
            assert((a + b)[j] == b[j - a.len()]);
        }
    }
    assert forall|i: int| 0 <= i < (a + b).len() implies lo < #[trigger] (a + b)[i].0 && (a
        + b)[i].0 <= hi by {
        if i < a.len() {
            assert((a + b)[i] == a[i]);
        } else {
            assert((a + b)[i] == b[i - a.len()]);
        }
    }
}

impl Node {
    /// The children `a..b` of a well-formed internal node hold sorted entries
    /// within the boundaries around them.
    pub proof fn lemma_children_range(self, h: nat, lo: int, hi: int, a: int, b: int)
        requires
            self.wf(h, lo, hi),
            self is Internal,
            0 <= a <= b <= self->children@.len(),
        ensures
            strictly_sorted(flatten(self->children@.subrange(a, b))),
            within(
                flatten(self->children@.subrange(a, b)),
                bound(self->Internal_keys@, lo, hi, a - 1),
                bound(self->Internal_keys@, lo, hi, b - 1),
            ),
        decreases self, b - a,
    {
        let cs = self->children@;
        let keys = self->Internal_keys@;
        if a == b {
            assert(cs.subrange(a, b) =~= Seq::<Node>::empty());
            assert(flatten(cs.subrange(a, b)) =~= Seq::<Entry>::empty());
        } else {
            self.lemma_children_range(h, lo, hi, a, b - 1);
            let c = cs[b - 1];
            assert(c.wf((h - 1) as nat, bound(keys, lo, hi, b - 2), bound(keys, lo, hi, b - 1)));
            c.lemma_sorted((h - 1) as nat, bound(keys, lo, hi, b - 2), bound(keys, lo, hi, b - 1));
            assert(cs.subrange(a, b).drop_last() =~= cs.subrange(a, b - 1));
            lemma_join_sorted(
                flatten(cs.subrange(a, b - 1)),
                c.entries(),
                bound(keys, lo, hi, a - 1),
                bound(keys, lo, hi, b - 2),
                bound(keys, lo, hi, b - 1),
            );
        }
    }

    /// The entries of a well-formed subtree are sorted and within its range.
    pub proof fn lemma_sorted(self, h: nat, lo: int, hi: int)
        requires
            self.wf(h, lo, hi),
        ensures
            strictly_sorted(self.entries()),
            within(self.entries(), lo, hi),
            lo <= hi || self.entries().len() == 0,
        decreases self, self.child_count() + 1,
    {
        match self {
            Node::Leaf { .. } => {
                if self.entries().len() > 0 {
                    assert(lo < self.entries()[0].0 <= hi);
                }
            },
            Node::Internal { keys, children } => {
                let n = children@.len() as int;
                self.lemma_children_range(h, lo, hi, 0, n);
                assert(children@.subrange(0, n) =~= children@);
                assert(bound(keys@, lo, hi, -1) <= bound(keys@, lo, hi, n - 1));
            },
        }
    }
}

pub proof fn lemma_flatten_split(cs: Seq<Node>, i: int)
    requires
        0 <= i < cs.len(),
    ensures
        flatten(cs) == flatten(cs.take(i)) + cs[i].entries() + flatten(cs.skip(i + 1)),
{
    assert(cs =~= cs.take(i) + seq![cs[i]] + cs.skip(i + 1));
    lemma_flatten_concat(cs.take(i) + seq![cs[i]], cs.skip(i + 1));
    lemma_flatten_concat(cs.take(i), seq![cs[i]]);
    lemma_flatten_single(cs[i]);
}

impl Node {
    /// In a well-formed internal node, a key between boundaries `i - 1` and
    /// `i` can only be held by child `i`.
    pub proof fn lemma_route(self, h: nat, lo: int, hi: int, i: int, k: u64)
        requires
            self.wf(h, lo, hi),
            self is Internal,
            0 <= i < self->children@.len(),
            bound(self->Internal_keys@, lo, hi, i - 1) < k <= bound(self->Internal_keys@, lo, hi, i),
        ensures
            self.entries() == flatten(self->children@.take(i)) + self->children@[i].entries()
                + flatten(self->children@.skip(i + 1)),
            has_key(self.entries(), k) == has_key(self->children@[i].entries(), k),
            forall|e: Entry| #[trigger]
                self->children@[i].entries().contains(e) ==> self.entries().contains(e),
    {
        let cs = self->children@;
        let n = cs.len() as int;
        lemma_flatten_split(cs, i);
        self.lemma_children_range(h, lo, hi, 0, i);
        self.lemma_children_range(h, lo, hi, i + 1, n);
        assert(cs.subrange(0, i) =~= cs.take(i));
        assert(cs.subrange(i + 1, n) =~= cs.skip(i + 1));
        let a = flatten(cs.take(i));
        let c = cs[i].entries();
        let b = flatten(cs.skip(i + 1));
        assert(self.entries() == a + c + b);
        if has_key(self.entries(), k) {
            let j = choose|j: int| 0 <= j < self.entries().len() && #[trigger] self.entries()[j].0 == k;
            if j < a.len() {
                assert((a + c + b)[j] == a[j]);
            } else if j >= a.len() + c.len() {
                assert((a + c + b)[j] == b[j - a.len() - c.len()]);
            } else {
                assert((a + c + b)[j] == c[j - a.len()]);
            }
        }
        if has_key(c, k) {
            let j = choose|j: int| 0 <= j < c.len() && #[trigger] c[j].0 == k;
            assert((a + c + b)[a.len() + j] == c[j]);
        }
        assert forall|e: Entry| #[trigger] c.contains(e) implies self.entries().contains(e) by {
            let j = choose|j: int| 0 <= j < c.len() && c[j] == e;
            assert((a + c + b)[a.len() + j] == c[j]);
        }
    }
}

/// The number of keys that are less than `key`, in a sorted list of keys.
fn lower_bound(keys: &Vec<u64>, key: u64) -> (r: usize)
    requires
        sorted_keys(keys@),
    ensures
        r <= keys@.len(),
        forall|i: int| 0 <= i < r ==> keys@[i] < key,
        forall|i: int| r <= i < keys@.len() ==> key <= keys@[i],
{
    let mut lo: usize = 0;
    let mut hi: usize = keys.len();
    while lo < hi
        invariant
            lo <= hi <= keys@.len(),
            sorted_keys(keys@),
            forall|i: int| 0 <= i < lo ==> keys@[i] < key,
            forall|i: int| hi <= i < keys@.len() ==> key <= keys@[i],
        decreases hi - lo,
    {
        let mid = lo + (hi - lo) / 2;
        if keys[mid] < key {
            lo = mid + 1;
        } else {
            hi = mid;
        }
    }
    lo
}

impl KeyValuePair {
    pub fn new(key: u64, value: Vec<u8>) -> (r: Self)
        ensures
            r.key == key,
            r.value@ == value@,
    {
        KeyValuePair { key, value }
    }

    /// A copy of this pair.
    pub fn copied(&self) -> (r: Self)
        ensures
            r@ == self@,
    {
        KeyValuePair { key: self.key, value: self.value.clone() }
    }
}

impl Node {
    /// Looks `key` up in a well-formed subtree whose range holds it.
    fn search(&self, key: u64, Ghost(h): Ghost<nat>, Ghost(lo): Ghost<int>, Ghost(hi): Ghost<int>) -> (r: Option<KeyValuePair>)
        requires
            self.wf(h, lo, hi),
            lo < key <= hi,
        ensures
            match r {
                Some(p) => p.key == key && self.entries().contains(p@),
                None => !has_key(self.entries(), key),
            },
        decreases self,
    {
        match self {
            Node::Internal { keys, children } => {
                proof {
                    assert forall|i: int, j: int| 0 <= i <= j < keys@.len() implies keys@[i] <= keys@[j] by {
                        assert(bound(keys@, lo, hi, i) <= bound(keys@, lo, hi, j));
                    }
                }
                let idx = lower_bound(keys, key);
                proof {
                    self.lemma_route(h, lo, hi, idx as int, key);
                }
                let r = children[idx].search(
                    key,
                    Ghost((h - 1) as nat),
                    Ghost(bound(keys@, lo, hi, idx - 1)),
                    Ghost(bound(keys@, lo, hi, idx as int)),
                );
                proof {
                    if r is Some {
                        assert(children@[idx as int].entries().contains(r->Some_0@));
                    }
                }
                r
            },
            Node::Leaf { keys, values } => {
                proof {
                    assert forall|i: int, j: int| 0 <= i <= j < keys@.len() implies keys@[i] <= keys@[j] by {
                        if i < j {
                            assert(self.entries()[i].0 < self.entries()[j].0);
                        }
                    }
                }
                let idx = lower_bound(keys, key);
                if idx < keys.len() && keys[idx] == key {
                    let p = values[idx].copied();
                    assert(self.entries()[idx as int] == p@);
                    Some(p)
                } else {
                    proof {
                        assert forall|j: int| 0 <= j < self.entries().len() implies #[trigger] self.entries()[j].0 != key by {
                            assert(self.entries()[j].0 == keys@[j]);
                            if j < idx {
                            } else {
                                if keys@[j] == key {
                                    assert(keys@[idx as int] <= keys@[j]);
                                }
                            }
                        }
                    }
                    None
                }
            },
        }
    }
}

/// `b` is `a` with `e` inserted at some position.
pub open spec fn is_insertion(a: Seq<Entry>, b: Seq<Entry>, e: Entry) -> bool {
    exists|i: int| 0 <= i <= a.len() && b == a.insert(i, e)
}

/// Where a leaf of `n` keys is cut: the left half gets the extra key.
pub open spec fn leaf_mid(n: int) -> int {
    n / 2 + 1
}

/// Where an internal node of `n` separators is cut: at its median separator.
pub open spec fn internal_mid(n: int) -> int {
    n / 2
}

impl Node {
    /// A node holds more than its capacity.
    pub open spec fn full(self) -> bool {
        match self {
            Node::Leaf { keys, .. } => keys@.len() > 2 * ORDER - 1,
            Node::Internal { children, .. } => children@.len() > 2 * ORDER,
        }
    }

    /// A node that can be split: a leaf with as many pairs as keys, at least
    /// one; an internal node with a separator and children up to the median.
    pub open spec fn splittable(self) -> bool {
        match self {
            Node::Leaf { keys, values } => keys@.len() == values@.len() && keys@.len() >= 1,
            Node::Internal { keys, children } => {
                &&& keys@.len() >= 1
                &&& children@.len() >= internal_mid(keys@.len() as int) + 1
            },
        }
    }

    /// `(left, sep, right)` is what splitting `self` gives. A leaf keeps its
    /// first `leaf_mid` keys on the left and its last left key is the
    /// separator; an internal node gives up its median separator, keeping the
    /// separators before it and the children up to it on the left.
    pub open spec fn splits_into(self, left: Node, sep: u64, right: Node) -> bool {
        match self {
            Node::Leaf { keys, values } => {
                let mid = leaf_mid(keys@.len() as int);
                &&& left is Leaf
                &&& right is Leaf
                &&& left->Leaf_keys@ == keys@.take(mid)
                &&& left->values@ == values@.take(mid)
                &&& sep == keys@[mid - 1]
                &&& right->Leaf_keys@ == keys@.skip(mid)
                &&& right->values@ == values@.skip(mid)
            },
            Node::Internal { keys, children } => {
                let mid = internal_mid(keys@.len() as int);
                &&& left is Internal
                &&& right is Internal
                &&& left->Internal_keys@ == keys@.take(mid)
                &&& left->children@ == children@.take(mid + 1)
                &&& sep == keys@[mid]
                &&& right->Internal_keys@ == keys@.skip(mid + 1)
                &&& right->children@ == children@.skip(mid + 1)
            },
        }
    }

    pub fn is_full(&self) -> (r: bool)
        ensures
            r == self.full(),
    {
        match self {
            Node::Leaf { keys, .. } => keys.len() > 2 * ORDER - 1,
            Node::Internal { children, .. } => children.len() > 2 * ORDER,
        }
    }

    /// Cuts a node in two around a separator key (see `splits_into`).
    pub fn split(self) -> (r: (Node, u64, Node))
        requires
            self.splittable(),
        ensures
            self.splits_into(r.0, r.1, r.2),
    {
        match self {
            Node::Leaf { mut keys, mut values } => {
                let ghost (k0, v0) = (keys@, values@);
                let mid = keys.len() / 2 + 1;
                let right_keys = keys.split_off(mid);
                let right_values = values.split_off(mid);
                let sep = keys[mid - 1];
                assert(keys@ =~= k0.take(mid as int) && values@ =~= v0.take(mid as int));
                assert(right_keys@ =~= k0.skip(mid as int) && right_values@ =~= v0.skip(mid as int));
                (Node::Leaf { keys, values }, sep, Node::Leaf { keys: right_keys, values: right_values })
            },
            Node::Internal { mut keys, mut children } => {
                let ghost (k0, c0) = (keys@, children@);
                let mid = keys.len() / 2;
                let right_keys = keys.split_off(mid + 1);
                let right_children = children.split_off(mid + 1);
                let sep = keys[mid];
                keys.truncate(mid);
                assert(keys@ =~= k0.take(mid as int) && children@ =~= c0.take(mid + 1));
                assert(right_keys@ =~= k0.skip(mid + 1) && right_children@ =~= c0.skip(mid + 1));
                (
                    Node::Internal { keys, children },
                    sep,
                    Node::Internal { keys: right_keys, children: right_children },
                )
            },
        }
    }

    /// Splitting a well-formed node that is one over its capacity gives two
    /// well-formed halves of the same height that fit, on either side of a
    /// separator strictly inside the node's range, which between them hold
    /// the node's entries.
    pub proof fn lemma_split(self, h: nat, lo: int, hi: int, left: Node, sep: u64, right: Node)
        requires
            self.wf(h, lo, hi),
            self.splittable(),
            self.splits_into(left, sep, right),
            self.fits_but_top(),
            self.full(),
        ensures
            left.wf(h, lo, sep as int),
            right.wf(h, sep as int, hi),
            lo < sep < hi,
            left.entries() + right.entries() == self.entries(),
            left.fits() && right.fits(),
    {
        if self is Leaf {
            self.lemma_split_leaf(h, lo, hi, left, sep, right);
        } else {
            self.lemma_split_internal(h, lo, hi, left, sep, right);
        }
    }

    proof fn lemma_split_leaf(self, h: nat, lo: int, hi: int, left: Node, sep: u64, right: Node)
        requires
            self.wf(h, lo, hi),
            self.splittable(),
            self.splits_into(left, sep, right),
            self.fits_but_top(),
            self.full(),
            self is Leaf,
        ensures
            left.wf(h, lo, sep as int),
            right.wf(h, sep as int, hi),
            lo < sep < hi,
            left.entries() + right.entries() == self.entries(),
            left.fits() && right.fits(),
    {
        let keys = self->Leaf_keys;
        let values = self->values;
        let mid = leaf_mid(keys@.len() as int);
        let e = self.entries();
        self.lemma_sorted(h, lo, hi);
        assert(left.entries() =~= e.take(mid));
        assert(right.entries() =~= e.skip(mid));
        assert(e.take(mid) + e.skip(mid) =~= e);
        assert(e[mid - 1].0 == sep);
        assert(keys@.len() == 2 * ORDER);
        assert(sep < e[mid].0);
        assert forall|i: int| 0 <= i < left.entries().len() implies lo < #[trigger] left.entries()[i].0
            && left.entries()[i].0 <= sep by {
            assert(left.entries()[i] == e[i]);
            if i < mid - 1 {
                assert(e[i].0 < e[mid - 1].0);
            }
        }
        assert forall|i: int| 0 <= i < right.entries().len() implies sep < #[trigger] right.entries()[i].0
            && right.entries()[i].0 <= hi by {
            assert(right.entries()[i] == e[mid + i]);
            assert(e[mid - 1].0 < e[mid + i].0);
        }
        assert forall|i: int, j: int| 0 <= i < j < left.entries().len() implies left.entries()[i].0
            < left.entries()[j].0 by {
            assert(left.entries()[i] == e[i]);
            assert(left.entries()[j] == e[j]);
        }
        assert forall|i: int, j: int| 0 <= i < j < right.entries().len() implies right.entries()[i].0
            < right.entries()[j].0 by {
            assert(right.entries()[i] == e[mid + i]);
            assert(right.entries()[j] == e[mid + j]);
        }
        assert(left.wf(h, lo, sep as int));
        assert(right.wf(h, sep as int, hi));
    }

    #[verifier::rlimit(30)]
    proof fn lemma_split_internal(self, h: nat, lo: int, hi: int, left: Node, sep: u64, right: Node)
        requires
            self.wf(h, lo, hi),
            self.splittable(),
            self.splits_into(left, sep, right),
            self.fits_but_top(),
            self.full(),
            self is Internal,
        ensures
            left.wf(h, lo, sep as int),
            right.wf(h, sep as int, hi),
            lo < sep < hi,
            left.entries() + right.entries() == self.entries(),
            left.fits() && right.fits(),
    {
        let keys = self->Internal_keys;
        let children = self->children;
        let n = keys@.len() as int;
        let mid = internal_mid(n);
        let lk = left->Internal_keys@;
        let rk = right->Internal_keys@;
        let lc = left->children@;
        let rc = right->children@;
        assert forall|t: int| -1 <= t <= mid implies bound(lk, lo, sep as int, t) == bound(
            keys@,
            lo,
            hi,
            t,
        ) by {}
        assert forall|t: int| -1 <= t <= rk.len() implies bound(rk, sep as int, hi, t) == bound(
            keys@,
            lo,
            hi,
            t + mid + 1,
        ) by {}
        assert forall|i: int, j: int| -1 <= i <= j <= lk.len() implies bound(lk, lo, sep as int, i)
            <= bound(lk, lo, sep as int, j) by {
            assert(bound(keys@, lo, hi, i) <= bound(keys@, lo, hi, j));
        }
        assert forall|i: int, j: int| -1 <= i <= j <= rk.len() implies bound(rk, sep as int, hi, i)
            <= bound(rk, sep as int, hi, j) by {
            assert(bound(keys@, lo, hi, i + mid + 1) <= bound(keys@, lo, hi, j + mid + 1));
        }
        assert forall|i: int| 0 <= i < lc.len() implies (#[trigger] lc[i]).wf(
            (h - 1) as nat,
            bound(lk, lo, sep as int, i - 1),
            bound(lk, lo, sep as int, i),
        ) by {
            assert(lc[i] == children@[i]);
        }
        assert forall|i: int| 0 <= i < rc.len() implies (#[trigger] rc[i]).wf(
            (h - 1) as nat,
            bound(rk, sep as int, hi, i - 1),
            bound(rk, sep as int, hi, i),
        ) by {
            assert(rc[i] == children@[i + mid + 1]);
        }
        assert(bound(keys@, lo, hi, -1) <= bound(keys@, lo, hi, mid));
        assert(bound(keys@, lo, hi, mid) <= bound(keys@, lo, hi, n));
        assert(lc + rc =~= children@);
        lemma_flatten_concat(lc, rc);
        if self.fits_but_top() && self.full() {
            assert forall|i: int| 0 <= i < lc.len() implies (#[trigger] lc[i]).fits() by {
                assert(lc[i] == children@[i]);
            }
            assert forall|i: int| 0 <= i < rc.len() implies (#[trigger] rc[i]).fits() by {
                assert(rc[i] == children@[i + mid + 1]);
            }
        }
    }
}

/// Replacing child `i` of a well-formed internal node by a well-formed
/// subtree over the same range that holds one entry more keeps the node
/// well-formed, with that entry added.
pub proof fn lemma_replace_child(
    old_node: Node,
    new_node: Node,
    h: nat,
    lo: int,
    hi: int,
    i: int,
    c: Node,
    e: Entry,
)
    requires
        old_node.wf(h, lo, hi),
        old_node is Internal,
        new_node is Internal,
        0 <= i < old_node->children@.len(),
        new_node->Internal_keys@ == old_node->Internal_keys@,
        new_node->children@ == old_node->children@.update(i, c),
        c.wf(
            (h - 1) as nat,
            bound(old_node->Internal_keys@, lo, hi, i - 1),
            bound(old_node->Internal_keys@, lo, hi, i),
        ),
        is_insertion(old_node->children@[i].entries(), c.entries(), e),
    ensures
        new_node.wf(h, lo, hi),
        is_insertion(old_node.entries(), new_node.entries(), e),
{
    let cs = old_node->children@;
    let cs2 = new_node->children@;
    let keys = old_node->Internal_keys@;
    assert forall|t: int| 0 <= t < cs2.len() implies (#[trigger] cs2[t]).wf(
        (h - 1) as nat,
        bound(keys, lo, hi, t - 1),
        bound(keys, lo, hi, t),
    ) by {
        if t != i {
            assert(cs2[t] == cs[t]);
        }
    }
    lemma_flatten_split(cs, i);
    lemma_flatten_split(cs2, i);
    assert(cs2.take(i) =~= cs.take(i));
    assert(cs2.skip(i + 1) =~= cs.skip(i + 1));
    let j = choose|j: int|
        0 <= j <= cs[i].entries().len() && c.entries() == cs[i].entries().insert(j, e);
    let a = flatten(cs.take(i));
    let b = flatten(cs.skip(i + 1));
    assert(a + cs[i].entries().insert(j, e) + b =~= (a + cs[i].entries() + b).insert(a.len() + j, e));
}

/// Replacing child `i` of a well-formed internal node by the two halves of a
/// split subtree that holds one entry more, with their separator put in
/// between, keeps the node well-formed, with that entry added.
#[verifier::rlimit(40)]
pub proof fn lemma_replace_child_split(
    old_node: Node,
    new_node: Node,
    h: nat,
    lo: int,
    hi: int,
    i: int,
    left: Node,
    sep: u64,
    right: Node,
    e: Entry,
)
    requires
        old_node.wf(h, lo, hi),
        old_node is Internal,
        new_node is Internal,
        0 <= i < old_node->children@.len(),
        new_node->Internal_keys@ == old_node->Internal_keys@.insert(i, sep),
        new_node->children@ == old_node->children@.take(i) + seq![left, right]
            + old_node->children@.skip(i + 1),
        bound(old_node->Internal_keys@, lo, hi, i - 1) < sep < bound(
            old_node->Internal_keys@,
            lo,
            hi,
            i,
        ),
        left.wf((h - 1) as nat, bound(old_node->Internal_keys@, lo, hi, i - 1), sep as int),
        right.wf((h - 1) as nat, sep as int, bound(old_node->Internal_keys@, lo, hi, i)),
        is_insertion(old_node->children@[i].entries(), left.entries() + right.entries(), e),
    ensures
        new_node.wf(h, lo, hi),
        is_insertion(old_node.entries(), new_node.entries(), e),
{
    let cs = old_node->children@;
    let cs2 = new_node->children@;
    let keys = old_node->Internal_keys@;
    let keys2 = new_node->Internal_keys@;
    assert forall|t: int| -1 <= t <= keys2.len() implies #[trigger] bound(keys2, lo, hi, t) == if t
        < i {
        bound(keys, lo, hi, t)
    } else if t == i {
        sep as int
    } else {
        bound(keys, lo, hi, t - 1)
    } by {}
    assert forall|a: int, b: int| -1 <= a <= b <= keys2.len() implies bound(keys2, lo, hi, a) <= bound(
        keys2,
        lo,
        hi,
        b,
    ) by {
        let a0 = if a <= i { a } else { a - 1 };
        let b0 = if b < i { b } else { b - 1 };
        if a < i && b > i {
            assert(bound(keys, lo, hi, a) <= bound(keys, lo, hi, i - 1));
            assert(bound(keys, lo, hi, i) <= bound(keys, lo, hi, b - 1));
        } else if a == i && b > i {
            assert(bound(keys, lo, hi, i) <= bound(keys, lo, hi, b - 1));
        } else if a < i && b == i {
            assert(bound(keys, lo, hi, a) <= bound(keys, lo, hi, i - 1));
        } else if a != i && b != i {
            assert(bound(keys, lo, hi, a0) <= bound(keys, lo, hi, b0));
        }
    }
    assert forall|a: int, b: int| -1 <= a < b <= keys2.len() implies bound(keys2, lo, hi, a) < bound(
        keys2,
        lo,
        hi,
        b,
    ) by {
        if a < i && b > i {
            assert(bound(keys, lo, hi, a) <= bound(keys, lo, hi, i - 1));
            assert(bound(keys, lo, hi, i) <= bound(keys, lo, hi, b - 1));
        } else if a == i && b > i {
            assert(bound(keys, lo, hi, i) <= bound(keys, lo, hi, b - 1));
        } else if a < i && b == i {
            assert(bound(keys, lo, hi, a) <= bound(keys, lo, hi, i - 1));
        } else if a > i {
            assert(bound(keys, lo, hi, a - 1) < bound(keys, lo, hi, b - 1));
        } else if b < i {
            assert(bound(keys, lo, hi, a) < bound(keys, lo, hi, b));
        }
    }
    assert forall|t: int| 0 <= t < cs2.len() implies (#[trigger] cs2[t]).wf(
        (h - 1) as nat,
        bound(keys2, lo, hi, t - 1),
        bound(keys2, lo, hi, t),
    ) by {
        if t < i {
            assert(cs2[t] == cs[t]);
        } else if t == i {
            assert(cs2[t] == left);
        } else if t == i + 1 {
            assert(cs2[t] == right);
        } else {
            assert(cs2[t] == cs[t - 1]);
        }
    }
    lemma_flatten_split(cs, i);
    lemma_flatten_concat(cs.take(i) + seq![left, right], cs.skip(i + 1));
    lemma_flatten_concat(cs.take(i), seq![left, right]);
    lemma_flatten_concat(seq![left], seq![right]);
    assert(seq![left] + seq![right] =~= seq![left, right]);
    lemma_flatten_single(left);
    lemma_flatten_single(right);
    let c = cs[i].entries();
    let j = choose|j: int| 0 <= j <= c.len() && left.entries() + right.entries() == c.insert(j, e);
    let a = flatten(cs.take(i));
    let b = flatten(cs.skip(i + 1));
    assert(a + (left.entries() + right.entries()) + b =~= (a + c + b).insert(a.len() + j, e));
    assert(flatten(cs2) =~= a + (left.entries() + right.entries()) + b);
}

/// `p` is where `key` goes among `keys`: every key before it is smaller and
/// none from it on is.
pub open spec fn is_position(keys: Seq<u64>, key: u64, p: int) -> bool {
    &&& 0 <= p <= keys.len()
    &&& forall|i: int| 0 <= i < p ==> keys[i] < key
    &&& forall|i: int| p <= i < keys.len() ==> key <= keys[i]
}

/// The lower-bound index of `key` among sorted `keys`: the number of keys
/// below it.
pub open spec fn position(keys: Seq<u64>, key: u64) -> int {
    choose|p: int| is_position(keys, key, p)
}

pub proof fn lemma_position(keys: Seq<u64>, key: u64, p: int)
    requires
        is_position(keys, key, p),
    ensures
        position(keys, key) == p,
{
    let q = position(keys, key);
    assert(is_position(keys, key, q));
    if q < p {
        assert(key <= keys[q]);
    } else if p < q {
        assert(key <= keys[p]);
    }
}

/// `new` is the internal node with separators `keys` and `children` after
/// child `p` was replaced by `c`: where `c` is full, by its two split halves
/// with their separator put in at position `p`, and otherwise by `c` itself.
pub open spec fn spliced(keys: Seq<u64>, children: Seq<Node>, p: int, c: Node, new: Node) -> bool {
    if c.full() {
        exists|l: Node, s: u64, r: Node|
            #[trigger] c.splits_into(l, s, r) && new->Internal_keys@ == keys.insert(p, s)
                && new->children@ == children.take(p) + seq![l, r] + children.skip(p + 1)
    } else {
        new->Internal_keys@ == keys && new->children@ == children.update(p, c)
    }
}

/// `new` is what inserting `(key, value)` into the subtree `old` gives. At a
/// leaf the key and the pair go in at the key's position. At an internal node
/// the insertion goes down into the child at the key's position; where that
/// child ends up full, it is replaced by its two split halves with their
/// separator put in at the same position, and otherwise it stays in its place.
pub open spec fn inserted(old: Node, new: Node, key: u64, value: Seq<u8>) -> bool
    decreases old,
{
    match old {
        Node::Leaf { keys, values } => {
            let p = position(keys@, key);
            &&& new is Leaf
            &&& new->Leaf_keys@ == keys@.insert(p, key)
            &&& new->values@.len() == values@.len() + 1
            &&& new->values@.take(p) == values@.take(p)
            &&& new->values@[p]@ == (key, value)
            &&& new->values@.skip(p + 1) == values@.skip(p)
        },
        Node::Internal { keys, children } => {
            let p = position(keys@, key);
            &&& new is Internal
            &&& 0 <= p < children@.len()
            &&& exists|c: Node|
                #[trigger] spliced(keys@, children@, p, c, new) && inserted(
                    children@[p],
                    c,
                    key,
                    value,
                )
        },
    }
}

impl Node {
    /// Inserts a pair whose key is new to a well-formed subtree whose range
    /// holds it. Every node below stays within its capacity; this one may end
    /// one over it, for its parent to split.
    #[verifier::rlimit(60)]
    fn insert(
        &mut self,
        key: u64,
        value: Vec<u8>,
        Ghost(h): Ghost<nat>,
        Ghost(lo): Ghost<int>,
        Ghost(hi): Ghost<int>,
    )
        requires
            old(self).wf(h, lo, hi),
            old(self).fits(),
            lo < key <= hi,
            !has_key(old(self).entries(), key),
        ensures
            final(self).wf(h, lo, hi),
            final(self).fits_but_top(),
            is_insertion(old(self).entries(), final(self).entries(), (key, value@)),
            inserted(*old(self), *final(self), key, value@),
        decreases h,
    {
        let ghost old_node = *self;
        let ghost e: Entry = (key, value@);
        let ghost v = value@;
        match self {
            Node::Leaf { keys, values } => {
                proof {
                    assert forall|i: int, j: int| 0 <= i <= j < keys@.len() implies keys@[i] <= keys@[j] by {
                        if i < j {
                            assert(old_node.entries()[i].0 < old_node.entries()[j].0);
                        }
                    }
                }
                let idx = lower_bound(keys, key);
                proof {
                    lemma_position(keys@, key, idx as int);
                }
                let ghost old_entries = old_node.entries();
                proof {
                    assert forall|t: int| idx <= t < keys@.len() implies key < #[trigger] keys@[t] by {
                        assert(old_entries[t].0 == keys@[t]);
                    }
                }
                keys.insert(idx, key);
                values.insert(idx, KeyValuePair { key, value });
                proof {
                    let new_node = Node::Leaf { keys: *keys, values: *values };
                    let ne = new_node.entries();
                    assert(ne =~= old_entries.insert(idx as int, e));
                    assert forall|i: int| 0 <= i < keys@.len() implies keys@[i] == #[trigger] values@[i].key by {
                        if i > idx {
                            assert(keys@[i] == old_node->Leaf_keys@[i - 1]);
                        }
                    }
                    assert forall|i: int, j: int| 0 <= i < j < ne.len() implies ne[i].0 < ne[j].0 by {
                        if j < idx {
                        } else if i > idx {
                            assert(ne[i] == old_entries[i - 1]);
                            assert(ne[j] == old_entries[j - 1]);
                        } else if i == idx {
                            assert(ne[j] == old_entries[j - 1]);
                            assert(old_entries[j - 1].0 == old_node->Leaf_keys@[j - 1]);
                        } else if j == idx {
                            assert(old_entries[i].0 == old_node->Leaf_keys@[i]);
                        } else {
                            assert(ne[j] == old_entries[j - 1]);
                            assert(old_entries[i].0 < old_entries[j - 1].0);
                        }
                    }
                    assert forall|i: int| 0 <= i < ne.len() implies lo < #[trigger] ne[i].0 && ne[i].0 <= hi by {
                        if i < idx {
                            assert(ne[i] == old_entries[i]);
                        } else if i > idx {
                            assert(ne[i] == old_entries[i - 1]);
                        }
                    }
                    assert(new_node.wf(h, lo, hi));
                    let ov = old_node->values@;
                    assert(values@.take(idx as int) =~= ov.take(idx as int));
                    assert(values@.skip(idx + 1) =~= ov.skip(idx as int));
                    assert(values@[idx as int]@ == (key, v));
                    assert(inserted(old_node, new_node, key, v));
                }
            },
            Node::Internal { keys, children } => {
                proof {
                    assert forall|i: int, j: int| 0 <= i <= j < keys@.len() implies keys@[i] <= keys@[j] by {
                        assert(bound(keys@, lo, hi, i) <= bound(keys@, lo, hi, j));
                    }
                }
                let idx = lower_bound(keys, key);
                proof {
                    lemma_position(keys@, key, idx as int);
                }
                let ghost clo = bound(keys@, lo, hi, idx - 1);
                let ghost chi = bound(keys@, lo, hi, idx as int);
                proof {
                    old_node.lemma_route(h, lo, hi, idx as int, key);
                }
                let mut child = children.remove(idx);
                assert(child == old_node->children@[idx as int]);
                child.insert(key, value, Ghost((h - 1) as nat), Ghost(clo), Ghost(chi));
                if child.is_full() {
                    proof {
                        if child is Internal {
                            assert(child->Internal_keys@.len() >= 1);
                        } else {
                            assert(child->Leaf_keys@.len() >= 1);
                        }
                    }
                    let ghost full_child = child;
                    let (left, sep, right) = child.split();
                    proof {
                        full_child.lemma_split((h - 1) as nat, clo, chi, left, sep, right);
                    }
                    children.insert(idx, right);
                    children.insert(idx, left);
                    keys.insert(idx, sep);
                    proof {
                        let new_node = Node::Internal { keys: *keys, children: *children };
                        assert(children@ =~= old_node->children@.take(idx as int) + seq![left, right]
                            + old_node->children@.skip(idx + 1));
                        lemma_replace_child_split(old_node, new_node, h, lo, hi, idx as int, left, sep, right, e);
                        assert(inserted(old_node->children@[idx as int], full_child, key, v));
                        assert(full_child.splits_into(left, sep, right));
                        assert(keys@ == old_node->Internal_keys@.insert(idx as int, sep));
                        assert(spliced(
                            old_node->Internal_keys@,
                            old_node->children@,
                            idx as int,
                            full_child,
                            new_node,
                        ));
                        assert(inserted(old_node, new_node, key, v));
                        assert forall|t: int| 0 <= t < children@.len() implies (#[trigger] children@[t]).fits() by {
                            if t < idx {
                                assert(children@[t] == old_node->children@[t]);
                            } else if t > idx + 1 {
                                assert(children@[t] == old_node->children@[t - 1]);
                            }
                        }
                    }
                } else {
                    children.insert(idx, child);
                    proof {
                        let new_node = Node::Internal { keys: *keys, children: *children };
                        assert(children@ =~= old_node->children@.update(idx as int, child));
                        lemma_replace_child(old_node, new_node, h, lo, hi, idx as int, child, e);
                        assert(inserted(old_node->children@[idx as int], child, key, v));
                        assert(spliced(
                            old_node->Internal_keys@,
                            old_node->children@,
                            idx as int,
                            child,
                            new_node,
                        ));
                        assert(inserted(old_node, new_node, key, v));
                        assert forall|t: int| 0 <= t < children@.len() implies (#[trigger] children@[t]).fits() by {
                            if t != idx {
                                assert(children@[t] == old_node->children@[t]);
                            }
                        }
                    }
                }
            },
        }
    }
}

impl Node {
    /// Every leaf of the subtree lies `h` levels down.
    pub open spec fn level(self, h: nat) -> bool
        decreases self,
    {
        match self {
            Node::Leaf { .. } => h == 0,
            Node::Internal { children, .. } => {
                &&& h > 0
                &&& children@.len() > 0
                &&& forall|i: int|
                    0 <= i < children@.len() ==> (#[trigger] children@[i]).level((h - 1) as nat)
            },
        }
    }

    pub proof fn lemma_wf_level(self, h: nat, lo: int, hi: int)
        requires
            self.wf(h, lo, hi),
        ensures
            self.level(h),
        decreases self,
    {
        if let Node::Internal { keys, children } = self {
            assert forall|i: int| 0 <= i < children@.len() implies (#[trigger] children@[i]).level(
                (h - 1) as nat,
            ) by {
                children@[i].lemma_wf_level(
                    (h - 1) as nat,
                    bound(keys@, lo, hi, i - 1),
                    bound(keys@, lo, hi, i),
                );
            }
        }
    }

    pub fn is_leaf(&self) -> (r: bool)
        ensures
            r == self is Leaf,
    {
        match self {
            Node::Leaf { .. } => true,
            Node::Internal { .. } => false,
        }
    }

    fn new_leaf() -> (r: Node)
        ensures
            r.wf(0, -1, u64::MAX as int),
            r.fits(),
            r.entries() == Seq::<Entry>::empty(),
    {
        let r = Node::Leaf { keys: Vec::new(), values: Vec::new() };
        assert(r.entries() =~= Seq::<Entry>::empty());
        r
    }
}

/// The nodes that a run of references points at.
pub open spec fn nodes_of(v: Seq<&Node>) -> Seq<Node> {
    v.map_values(|n: &Node| *n)
}

pub proof fn lemma_flatten_skip(cs: Seq<Node>, i: int)
    requires
        0 <= i < cs.len(),
    ensures
        flatten(cs.skip(i)) == cs[i].entries() + flatten(cs.skip(i + 1)),
{
    assert(cs.skip(i) =~= seq![cs[i]] + cs.skip(i + 1));
    lemma_flatten_concat(seq![cs[i]], cs.skip(i + 1));
    lemma_flatten_single(cs[i]);
}

/// A lazy cursor over the keys of a tree, in ascending order. It walks the
/// tree breadth-first with a queue of pending nodes: an internal node taken
/// from the queue puts its children at the back, and a leaf hands out its
/// keys one by one. All leaves lie at one depth, so they come off the queue
/// left to right. Its view is the keys that it has yet to hand out.
pub struct KeysIterator<'a> {
    queue: Vec<&'a Node>,
    head: usize,
    split: usize,
    pos: usize,
    level: Ghost<nat>,
}

impl<'a> View for KeysIterator<'a> {
    type V = Seq<u64>;

    /// The queue from `head` holds the rest of the current level up to
    /// `split` and, after it, the part of the next level already reached,
    /// which comes first in key order.
    closed spec fn view(&self) -> Seq<u64> {
        let q = nodes_of(self.queue@);
        keys_of(
            flatten(q.subrange(self.split as int, q.len() as int)) + flatten(
                q.subrange(self.head as int, self.split as int),
            ),
        ).skip(self.pos as int)
    }
}

impl<'a> Default for KeysIterator<'a> {
    fn default() -> (r: Self)
        ensures
            r@ == Seq::<u64>::empty(),
            r.wf(),
    {
        let r = KeysIterator { queue: Vec::new(), head: 0, split: 0, pos: 0, level: Ghost(0) };
        assert(nodes_of(r.queue@).subrange(0, 0) =~= Seq::<Node>::empty());
        assert(flatten(Seq::<Node>::empty()) =~= Seq::<Entry>::empty());
        assert(r@ =~= Seq::<u64>::empty());
        r
    }
}

impl<'a> KeysIterator<'a> {
    /// The queue is in the state that a breadth-first walk leaves it in:
    /// the nodes from `head` to `split` lie at the current level, those
    /// after `split` one level down, and only a leaf is ever part-way read.
    pub closed spec fn wf(&self) -> bool {
        let q = self.queue@;
        let h = self.level@;
        &&& self.head <= self.split <= q.len()
        &&& forall|i: int| self.head <= i < self.split ==> (#[trigger] q[i]).level(h)
        &&& h > 0 ==> forall|i: int| self.split <= i < q.len() ==> (#[trigger] q[i]).level(
            (h - 1) as nat,
        )
        &&& h == 0 ==> self.split == q.len()
        &&& h > 0 ==> self.pos == 0
        &&& self.head < q.len() ==> self.pos <= q[self.head as int].entries().len()
        &&& self.head == q.len() ==> self.pos == 0
    }

    /// Hands out the next key, if any is left.
    #[verifier::loop_isolation(false)]
    #[verifier::rlimit(60)]
    pub fn next(&mut self) -> (r: Option<u64>)
        requires
            old(self).wf(),
        ensures
            final(self).wf(),
            old(self)@.len() > 0 ==> r == Some(old(self)@[0]) && final(self)@ == old(self)@.drop_first(),
            old(self)@.len() == 0 ==> r is None && final(self)@ == old(self)@,
    {
        let ghost start = self@;
        loop
            invariant
                self.wf(),
                self@ == start,
            decreases self.level@, self.split - self.head, self.queue@.len() - self.head,
        {
            let ghost q = nodes_of(self.queue@);
            if self.head >= self.queue.len() {
                assert(q.subrange(self.split as int, q.len() as int) =~= Seq::<Node>::empty());
                assert(q.subrange(self.head as int, self.split as int) =~= Seq::<Node>::empty());
                assert(flatten(Seq::<Node>::empty()) =~= Seq::<Entry>::empty());
                assert(self@ =~= Seq::<u64>::empty());
                return None;
            }
            if self.head == self.split {
                proof {
                    assert(q.subrange(self.head as int, self.split as int) =~= Seq::<Node>::empty());
                    assert(q.subrange(q.len() as int, q.len() as int) =~= Seq::<Node>::empty());
                    assert(flatten(Seq::<Node>::empty()) =~= Seq::<Entry>::empty());
                    let a = flatten(q.subrange(self.split as int, q.len() as int));
                    assert(a + Seq::<Entry>::empty() =~= a);
                    assert(Seq::<Entry>::empty() + a =~= a);
                }
                self.split = self.queue.len();
                proof {
                    self.level@ = (self.level@ - 1) as nat;
                }
                assert(self.wf());
                continue;
            }
            let node = self.queue[self.head];
            let ghost mid = q.subrange(self.head as int, self.split as int);
            let ghost back = flatten(q.subrange(self.split as int, q.len() as int));
            let ghost rest = flatten(q.subrange(self.head + 1, self.split as int));
            proof {
                lemma_flatten_skip(mid, 0);
                assert(mid.skip(0) =~= mid);
                assert(mid.skip(1) =~= q.subrange(self.head + 1, self.split as int));
                assert(mid[0] == *node);
                assert(node.level(self.level@));
            }
            match node {
                Node::Internal { children, .. } => {
                    let ghost old_len = self.queue@.len();
                    let ghost oq = self.queue@;
                    let ghost (head0, split0, pos0, level0) = (self.head, self.split, self.pos, self.level@);
                    let mut j: usize = 0;
                    while j < children.len()
                        invariant
                            j <= children@.len(),
                            self.head == head0 && self.split == split0 && self.pos == pos0,
                            self.level@ == level0,
                            self.level@ > 0,
                            node.level(self.level@),
                            old_len <= self.queue@.len(),
                            self.queue@.len() == old_len + j,
                            forall|i: int| 0 <= i < old_len ==> self.queue@[i] == oq[i],
                            nodes_of(self.queue@) == q + children@.take(j as int),
                            forall|i: int| self.split <= i < self.queue@.len() ==> (#[trigger] self.queue@[i]).level(
                                (self.level@ - 1) as nat,
                            ),
                        decreases children.len() - j,
                    {
                        let ghost before = self.queue@;
                        self.queue.push(&children[j]);
                        proof {
                            assert(children@[j as int].level((self.level@ - 1) as nat));
                            assert(self.queue@ == before.push(&children@[j as int]));
                            assert(nodes_of(self.queue@) =~= nodes_of(before).push(children@[j as int]));
                            assert(nodes_of(self.queue@) =~= q + children@.take(j + 1));
                        }
                        j = j + 1;
                    }
                    proof {
                        let q2 = nodes_of(self.queue@);
                        assert(children@.take(j as int) =~= children@);
                        assert(q2 == q + children@);
                        assert(q.len() == old_len);
                        assert(self.split <= q.len());
                        assert(q2.subrange(self.split as int, q2.len() as int) =~= q.subrange(
                            self.split as int,
                            q.len() as int,
                        ) + children@);
                        lemma_flatten_concat(q.subrange(self.split as int, q.len() as int), children@);
                        assert(q2.subrange(self.head + 1, self.split as int) =~= q.subrange(
                            self.head + 1,
                            self.split as int,
                        ));
                        assert(node.entries() == flatten(children@));
                        assert(back + (node.entries() + rest) =~= (back + node.entries()) + rest);
                        assert(forall|i: int| self.head + 1 <= i < self.split ==> q2[i] == q[i]);
                    }
                    self.head = self.head + 1;
                    proof {
                        assert forall|i: int| self.head <= i < self.split implies (#[trigger] self.queue@[i]).level(
                            self.level@,
                        ) by {
                            assert(self.queue@[i] == oq[i]);
                            assert(oq[i].level(level0));
                        }
                        assert(self.head <= self.split <= self.queue@.len());
                        assert(self.pos == 0);
                    }
                    assert(self.wf());
                },
                Node::Leaf { values, .. } => {
                    proof {
                        assert(self.level@ == 0);
                        assert(q.subrange(self.split as int, q.len() as int) =~= Seq::<Node>::empty());
                        assert(flatten(Seq::<Node>::empty()) =~= Seq::<Entry>::empty());
                        assert(back + (node.entries() + rest) =~= node.entries() + rest);
                        assert(keys_of(node.entries() + rest) =~= keys_of(node.entries()) + keys_of(rest));
                    }
                    if self.pos < values.len() {
                        let k = values[self.pos].key;
                        assert(node.entries()[self.pos as int].0 == k);
                        self.pos = self.pos + 1;
                        assert(self@ =~= start.drop_first());
                        return Some(k);
                    }
                    assert(self@ =~= keys_of(rest));
                    self.pos = 0;
                    self.head = self.head + 1;
                    proof {
                        assert(Seq::<Entry>::empty() + rest =~= rest);
                    }
                    assert(self@ =~= keys_of(rest));
                    assert(self.wf());
                },
            }
        }
    }
}

/// An insertion under a key that the tree already holds.
#[derive(Debug, Clone, Copy, PartialEq, Eq, Structural)]
pub struct DuplicateKey {
    pub key: u64,
}

/// `root` is the root of a tree of height `h1` that was of height `h0` and
/// whose root became `n` on an insertion: where `n` is full, it is split and
/// a new root with the two halves and their separator is put on top, one
/// level higher; otherwise `n` stays the root.
pub open spec fn grown(n: Node, root: Node, h0: nat, h1: nat) -> bool {
    if n.full() {
        exists|l: Node, s: u64, r: Node|
            #[trigger] n.splits_into(l, s, r) && root is Internal && root->Internal_keys@ == seq![s]
                && root->children@ == seq![l, r] && h1 == h0 + 1
    } else {
        root == n && h1 == h0
    }
}

/// A B+Tree index from `u64` keys to byte values. Its view is its entries in
/// ascending key order.
pub struct Btree {
    root: Node,
    height: Ghost<nat>,
}

impl View for Btree {
    type V = Seq<Entry>;

    closed spec fn view(&self) -> Seq<Entry> {
        self.root.entries()
    }
}

impl Btree {
    #[verifier::type_invariant]
    spec fn inv(&self) -> bool {
        &&& self.root.wf(self.height@, -1, u64::MAX as int)
        &&& self.root.fits()
    }

    /// No leaf of the tree holds more than `2 * ORDER - 1` keys and no
    /// internal node more than `2 * ORDER` children.
    pub closed spec fn within_capacity(&self) -> bool {
        self.root.fits()
    }

    /// The root node.
    pub closed spec fn root_node(&self) -> Node {
        self.root
    }

    /// The depth at which all leaves lie: 0 while the root is a leaf.
    pub closed spec fn height(&self) -> nat {
        self.height@
    }

    /// An empty tree: its root is a leaf with no keys.
    pub fn new() -> (r: Self)
        ensures
            r@ == Seq::<Entry>::empty(),
            r.root_node() is Leaf,
            r.root_node()->Leaf_keys@.len() == 0,
            r.root_node()->values@.len() == 0,
            r.height() == 0,
    {
        Btree { root: Node::new_leaf(), height: Ghost(0) }
    }

    /// The root node.
    pub fn root(&self) -> (r: &Node)
        ensures
            *r == self.root_node(),
            r.level(self.height()),
    {
        proof {
            use_type_invariant(self);
            self.root.lemma_wf_level(self.height@, -1, u64::MAX as int);
        }
        &self.root
    }

    /// The pair stored under `key`, if any.
    pub fn search(&self, key: u64) -> (r: Option<KeyValuePair>)
        ensures
            strictly_sorted(self@),
            match r {
                Some(p) => p.key == key && self@.contains(p@),
                None => !has_key(self@, key),
            },
    {
        proof {
            use_type_invariant(self);
            self.root.lemma_sorted(self.height@, -1, u64::MAX as int);
        }
        self.root.search(key, Ghost(self.height@), Ghost(-1), Ghost(u64::MAX as int))
    }

    /// Adds a pair under a key that the tree does not hold yet; a root that
    /// overflows is split and the tree grows by one level.
    pub fn insert(&mut self, key: u64, value: Vec<u8>)
        requires
            !has_key(old(self)@, key),
        ensures
            exists|n: Node|
                #[trigger] grown(n, final(self).root_node(), old(self).height(), final(self).height())
                    && inserted(old(self).root_node(), n, key, value@),
            is_insertion(old(self)@, final(self)@, (key, value@)),
            strictly_sorted(final(self)@),
            final(self).within_capacity(),
    {
        proof {
            use_type_invariant(&*self);
        }
        let mut tree = Btree::new();
        std::mem::swap(self, &mut tree);
        proof {
            use_type_invariant(&tree);
        }
        let Btree { mut root, height } = tree;
        let ghost h = height@;
        let ghost old_root = root;
        let ghost v = value@;
        root.insert(key, value, Ghost(h), Ghost(-1), Ghost(u64::MAX as int));
        let ghost n = root;
        assert(inserted(old_root, n, key, v));
        assert(old_root == old(self).root && h == old(self).height@);
        if root.is_full() {
            proof {
                if root is Internal {
                    assert(root->Internal_keys@.len() >= 1);
                } else {
                    assert(root->Leaf_keys@.len() >= 1);
                }
            }
            let ghost full_root = root;
            let (left, sep, right) = root.split();
            proof {
                full_root.lemma_split(h, -1, u64::MAX as int, left, sep, right);
            }
            let new_root = Node::Internal { keys: vec![sep], children: vec![left, right] };
            proof {
                let ks = new_root->Internal_keys@;
                let cs = new_root->children@;
                assert(ks =~= seq![sep]);
                assert(cs =~= seq![left, right]);
                assert(bound(ks, -1, u64::MAX as int, 0) == sep);
                assert(cs[0] == left && cs[1] == right);
                assert(new_root.wf(h + 1, -1, u64::MAX as int));
                lemma_flatten_concat(seq![left], seq![right]);
                assert(seq![left] + seq![right] =~= cs);
                lemma_flatten_single(left);
                lemma_flatten_single(right);
            }
            *self = Btree { root: new_root, height: Ghost(h + 1) };
            assert(full_root.splits_into(left, sep, right));
            assert(grown(n, self.root, h, self.height@));
        } else {
            *self = Btree { root, height: Ghost(h) };
            assert(grown(n, self.root, h, self.height@));
        }
        proof {
            self.root.lemma_sorted(self.height@, -1, u64::MAX as int);
            assert(grown(n, self.root_node(), old(self).height(), self.height()));
        }
    }

    /// Adds a pair unless the key is already held, in which case the tree is
    /// left as it was and the key is reported back.
    pub fn try_insert(&mut self, key: u64, value: Vec<u8>) -> (r: Result<(), DuplicateKey>)
        ensures
            has_key(old(self)@, key) ==> r == Err::<(), DuplicateKey>(DuplicateKey { key })
                && final(self)@ == old(self)@ && final(self).root_node() == old(self).root_node()
                && final(self).height() == old(self).height(),
            !has_key(old(self)@, key) ==> r is Ok && is_insertion(old(self)@, final(self)@, (key, value@))
                && exists|n: Node|
                #[trigger] grown(n, final(self).root_node(), old(self).height(), final(self).height())
                    && inserted(old(self).root_node(), n, key, value@),
            strictly_sorted(final(self)@),
            final(self).within_capacity(),
    {
        match self.search(key) {
            Some(p) => {
                proof {
                    use_type_invariant(&*self);
                    let j = choose|j: int| 0 <= j < self@.len() && self@[j] == p@;
                    assert(self@[j].0 == key);
                }
                Err(DuplicateKey { key })
            },
            None => {
                self.insert(key, value);
                Ok(())
            },
        }
    }

    /// A lazy cursor over the keys, in ascending order, that starts from
    /// the root alone on its queue.
    pub fn keys<'a>(&'a self) -> (r: KeysIterator<'a>)
        ensures
            r.wf(),
            r@ == keys_of(self@),
            forall|i: int, j: int| 0 <= i < j < r@.len() ==> r@[i] < r@[j],
    {
        proof {
            use_type_invariant(self);
            self.root.lemma_wf_level(self.height@, -1, u64::MAX as int);
            self.root.lemma_sorted(self.height@, -1, u64::MAX as int);
        }
        let mut queue: Vec<&'a Node> = Vec::new();
        queue.push(&self.root);
        let r = KeysIterator { queue, head: 0, split: 1, pos: 0, level: Ghost(self.height@) };
        proof {
            let q = nodes_of(r.queue@);
            assert(q.subrange(1, 1) =~= Seq::<Node>::empty());
            assert(q.subrange(0, 1) =~= seq![self.root]);
            assert(flatten(Seq::<Node>::empty()) =~= Seq::<Entry>::empty());
            lemma_flatten_single(self.root);
            assert(Seq::<Entry>::empty() + self@ =~= self@);
            assert(keys_of(self@).skip(0) =~= keys_of(self@));
        }
        assert forall|i: int, j: int| 0 <= i < j < r@.len() implies r@[i] < r@[j] by {
            assert(self@[i].0 < self@[j].0);
        }
        r
    }
}

/// `views` is what a tree's view goes through when the pairs `es` are
/// inserted into an empty tree one after another: each step inserts the next
/// pair and leaves the entries strictly sorted.
pub open spec fn insertion_run(es: Seq<Entry>, views: Seq<Seq<Entry>>) -> bool {
    &&& views.len() == es.len() + 1
    &&& views[0] == Seq::<Entry>::empty()
    &&& forall|i: int|
        0 <= i < es.len() ==> is_insertion(views[i], #[trigger] views[i + 1], es[i])
            && strictly_sorted(views[i + 1])
}

/// After the first `n` steps of an insertion run, the tree holds exactly the
/// first `n` pairs.
proof fn lemma_run_prefix(es: Seq<Entry>, views: Seq<Seq<Entry>>, n: int)
    requires
        insertion_run(es, views),
        0 <= n <= es.len(),
    ensures
        views[n].len() == n,
        forall|t: int| 0 <= t < n ==> views[n].contains(#[trigger] es[t]),
        forall|x: Entry| #[trigger]
            views[n].contains(x) ==> exists|t: int| 0 <= t < n && es[t] == x,
    decreases n,
{
    if n > 0 {
        lemma_run_prefix(es, views, n - 1);
        let a = views[n - 1];
        let b = views[n];
        assert(is_insertion(a, views[(n - 1) + 1], es[n - 1]));
        let e = es[n - 1];
        let pos = choose|pos: int| 0 <= pos <= a.len() && b == #[trigger] a.insert(pos, e);
        assert(b[pos] == es[n - 1]);
        assert forall|t: int| 0 <= t < n implies b.contains(#[trigger] es[t]) by {
            if t < n - 1 {
                assert(a.contains(es[t]));
                let j = choose|j: int| 0 <= j < a.len() && a[j] == es[t];
                if j < pos {
                    assert(b[j] == a[j]);
                } else {
                    assert(b[j + 1] == a[j]);
                }
            }
        }
        assert forall|x: Entry| #[trigger] b.contains(x) implies exists|t: int|
            0 <= t < n && es[t] == x by {
            let j = choose|j: int| 0 <= j < b.len() && b[j] == x;
            if j < pos {
                assert(a[j] == x);
                assert(a.contains(x));
            } else if j > pos {
                assert(a[j - 1] == x);
                assert(a.contains(x));
            } else {
                assert(es[n - 1] == x);
            }
        }
    }
}

/// Order law: after inserting pairs with distinct keys into an empty tree,
/// its keys, as `keys` hands them out, are strictly ascending, one for each
/// inserted pair, and are exactly the inserted keys.
pub proof fn lemma_keys_after_inserts(es: Seq<Entry>, views: Seq<Seq<Entry>>)
    requires
        insertion_run(es, views),
    ensures
        forall|i: int, j: int|
            0 <= i < j < keys_of(views.last()).len() ==> keys_of(views.last())[i] < keys_of(
                views.last(),
            )[j],
        keys_of(views.last()).len() == es.len(),
        forall|k: u64| keys_of(views.last()).contains(k) <==> keys_of(es).contains(k),
{
    let n = es.len() as int;
    lemma_run_prefix(es, views, n);
    let last = views.last();
    if n > 0 {
        assert(strictly_sorted(views[(n - 1) + 1]));
    }
    assert(strictly_sorted(last));
    assert forall|k: u64| keys_of(last).contains(k) implies keys_of(es).contains(k) by {
        let j = choose|j: int| 0 <= j < keys_of(last).len() && keys_of(last)[j] == k;
        assert(last.contains(last[j]));
        let t = choose|t: int| 0 <= t < n && es[t] == last[j];
        assert(keys_of(es)[t] == k);
    }
    assert forall|k: u64| keys_of(es).contains(k) implies keys_of(last).contains(k) by {
        let t = choose|t: int| 0 <= t < n && keys_of(es)[t] == k;
        assert(last.contains(es[t]));
        let j = choose|j: int| 0 <= j < last.len() && last[j] == es[t];
        assert(keys_of(last)[j] == k);
    }
}

/// Search law: after inserting pairs with distinct keys into an empty tree,
/// an entry of the tree (what `search` returns for its key) under an inserted
/// key is the pair inserted under it, and a key never inserted is absent.
pub proof fn lemma_search_after_inserts(es: Seq<Entry>, views: Seq<Seq<Entry>>)
    requires
        insertion_run(es, views),
    ensures
        forall|i: int, p: Entry|
            0 <= i < es.len() && #[trigger] views.last().contains(p) && p.0 == (#[trigger] es[i]).0
                ==> p == es[i],
        forall|i: int| 0 <= i < es.len() ==> has_key(views.last(), (#[trigger] es[i]).0),
        forall|k: u64| !keys_of(es).contains(k) ==> !has_key(views.last(), k),
{
    let n = es.len() as int;
    lemma_run_prefix(es, views, n);
    let last = views.last();
    if n > 0 {
        assert(strictly_sorted(views[(n - 1) + 1]));
    }
    assert forall|i: int, p: Entry|
        0 <= i < es.len() && #[trigger] last.contains(p) && p.0 == (#[trigger] es[i]).0 implies p
        == es[i] by {
        assert(last.contains(es[i]));
        let a = choose|a: int| 0 <= a < last.len() && last[a] == p;
        let b = choose|b: int| 0 <= b < last.len() && last[b] == es[i];
        if a < b {
            assert(last[a].0 < last[b].0);
        } else if b < a {
            assert(last[b].0 < last[a].0);
        }
    }
    assert forall|i: int| 0 <= i < es.len() implies has_key(last, (#[trigger] es[i]).0) by {
        assert(last.contains(es[i]));
        let b = choose|b: int| 0 <= b < last.len() && last[b] == es[i];
        assert(last[b].0 == es[i].0);
    }
    assert forall|k: u64| !keys_of(es).contains(k) implies !has_key(last, k) by {
        if has_key(last, k) {
            let j = choose|j: int| 0 <= j < last.len() && #[trigger] last[j].0 == k;
            assert(last.contains(last[j]));
            let t = choose|t: int| 0 <= t < n && es[t] == last[j];
            assert(keys_of(es)[t] == k);
        }
    }
}

} // verus!