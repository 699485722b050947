//! B+ tree — hierarchical metadata index for VexFS.
//!
//! Keys are composite: `Key(parent_ino, name)`, ordered by `parent_ino`
//! first, then by the UTF-8 bytes of `name` lexicographically, so every
//! directory's children form one contiguous, sorted run of the tree.
use vstd::prelude::*;
use vstd::string::*;
use vstd::utf8::encode_utf8;
use vstd::std_specs::cmp::{PartialEqSpecImpl, PartialOrdSpecImpl};
use std::cmp::Ordering;
use crate::walk::lemma_filter_empty;

verus! {

const ORDER: usize = 8;

// ─── Key ─────────────────────────────────────────────────────────────────────

/// Composite B+ tree key: (parent directory inode, entry name).
#[derive(Debug)]
pub struct Key(pub u64, pub String);

/// A key as the specifications see it: the parent inode and the name's UTF-8 bytes.
pub type KeyView = (u64, Seq<u8>);

/// The UTF-8 bytes of a string.
pub open spec fn str_bytes(s: String) -> Seq<u8> {
    encode_utf8(s@)
}

impl Key {
    pub open spec fn kv(self) -> KeyView {
        (self.0, str_bytes(self.1))
    }
}

/// Lexicographic order on byte strings, as `str`'s `Ord` compares them.
pub open spec fn bytes_lt(a: Seq<u8>, b: Seq<u8>) -> bool
    decreases a.len(),
{
    if a.len() == 0 {
        b.len() > 0
    } else if b.len() == 0 {
        false
    } else if a[0] < b[0] {
        true
    } else if a[0] > b[0] {
        false
    } else {
        bytes_lt(a.drop_first(), b.drop_first())
    }
}

/// Key order: parent inode first, then name bytes.
pub open spec fn key_lt(a: KeyView, b: KeyView) -> bool {
    a.0 < b.0 || (a.0 == b.0 && bytes_lt(a.1, b.1))
}

pub open spec fn key_le(a: KeyView, b: KeyView) -> bool {
    key_lt(a, b) || a == b
}

pub proof fn lemma_bytes_lt_irrefl(a: Seq<u8>)
    ensures
        !bytes_lt(a, a),
    decreases a.len(),
{
    if a.len() > 0 {
        lemma_bytes_lt_irrefl(a.drop_first());
    }
}

pub proof fn lemma_bytes_lt_trans(a: Seq<u8>, b: Seq<u8>, c: Seq<u8>)
    requires
        bytes_lt(a, b),
        bytes_lt(b, c),
    ensures
        bytes_lt(a, c),
    decreases a.len(),
{
    if a.len() > 0 && b.len() > 0 && c.len() > 0 && a[0] == b[0] && b[0] == c[0] {
        lemma_bytes_lt_trans(a.drop_first(), b.drop_first(), c.drop_first());
    }
}

pub proof fn lemma_bytes_lt_total(a: Seq<u8>, b: Seq<u8>)
    ensures
        bytes_lt(a, b) || bytes_lt(b, a) || a == b,
    decreases a.len(),
{
    if a.len() > 0 && b.len() > 0 && a[0] == b[0] {
        lemma_bytes_lt_total(a.drop_first(), b.drop_first());
        if a.drop_first() == b.drop_first() {
            assert(a =~= seq![a[0]] + a.drop_first());
            assert(b =~= seq![b[0]] + b.drop_first());
        }
    } else if a.len() == 0 && b.len() == 0 {
        assert(a =~= b);
    }
}

pub proof fn lemma_bytes_lt_asym(a: Seq<u8>, b: Seq<u8>)
    requires
        bytes_lt(a, b),
    ensures
        !bytes_lt(b, a),
{
    if bytes_lt(b, a) {
        lemma_bytes_lt_trans(a, b, a);
        lemma_bytes_lt_irrefl(a);
    }
}

/// `key_lt` is a strict total order.
pub proof fn lemma_key_order()
    ensures
        forall|a: KeyView| !key_lt(a, a),
        forall|a: KeyView, b: KeyView, c: KeyView|
            #![trigger key_lt(a, b), key_lt(b, c)]
            key_lt(a, b) && key_lt(b, c) ==> key_lt(a, c),
        forall|a: KeyView, b: KeyView| #[trigger] key_lt(a, b) || key_lt(b, a) || a == b,
{
    assert forall|a: KeyView| !key_lt(a, a) by {
        lemma_bytes_lt_irrefl(a.1);
    }
    assert forall|a: KeyView, b: KeyView, c: KeyView|
        #![trigger key_lt(a, b), key_lt(b, c)]
        key_lt(a, b) && key_lt(b, c) implies key_lt(a, c) by {
        if a.0 == b.0 && b.0 == c.0 {
            lemma_bytes_lt_trans(a.1, b.1, c.1);
        }
    }
    assert forall|a: KeyView, b: KeyView| #[trigger] key_lt(a, b) || key_lt(b, a) || a == b by {
        lemma_bytes_lt_total(a.1, b.1);
    }
}

/// Outcome of comparing two keys.
pub enum KeyOrder {
    Less,
    Equal,
    Greater,
}

/// Three-way byte-string comparison.
fn compare_bytes(a: &[u8], b: &[u8]) -> (r: KeyOrder)
    ensures
        r is Less <==> bytes_lt(a@, b@),
        r is Equal <==> a@ == b@,
        r is Greater <==> bytes_lt(b@, a@),
{
    proof {
        lemma_bytes_lt_total(a@, b@);
        lemma_bytes_lt_irrefl(a@);
        if bytes_lt(a@, b@) {
            lemma_bytes_lt_asym(a@, b@);
        }
    }
    let n = a.len();
    let m = b.len();
    let mut i: usize = 0;
    proof {
        assert(a@.subrange(0, n as int) =~= a@);
        assert(b@.subrange(0, m as int) =~= b@);
    }
    while i < n && i < m
        invariant
            n == a@.len(),
            m == b@.len(),
            i <= n,
            i <= m,
            a@.subrange(0, i as int) == b@.subrange(0, i as int),
            bytes_lt(a@, b@) == bytes_lt(a@.subrange(i as int, n as int), b@.subrange(i as int, m as int)),
            bytes_lt(b@, a@) == bytes_lt(b@.subrange(i as int, m as int), a@.subrange(i as int, n as int)),
        decreases n - i,
    {
        if a[i] < b[i] {
            return KeyOrder::Less;
        }
        if a[i] > b[i] {
            return KeyOrder::Greater;
        }
        proof {
            assert(a@.subrange(i as int, n as int).drop_first() =~= a@.subrange(i + 1, n as int));
            assert(b@.subrange(i as int, m as int).drop_first() =~= b@.subrange(i + 1, m as int));
            assert(a@.subrange(0, i + 1) =~= a@.subrange(0, i as int).push(a@[i as int]));
            assert(b@.subrange(0, i + 1) =~= b@.subrange(0, i as int).push(b@[i as int]));
        }
        i += 1;
    }
    if n == m {
        assert(a@ =~= a@.subrange(0, i as int));
        assert(b@ =~= b@.subrange(0, i as int));
        KeyOrder::Equal
    } else if n < m {
        KeyOrder::Less
    } else {
        KeyOrder::Greater
    }
}

/// Three-way key comparison.
fn compare_keys(a: &Key, b: &Key) -> (r: KeyOrder)
    ensures
        r is Less <==> key_lt(a.kv(), b.kv()),
        r is Equal <==> a.kv() == b.kv(),
        r is Greater <==> key_lt(b.kv(), a.kv()),
{
    proof {
        lemma_key_order();
    }
    if a.0 < b.0 {
        KeyOrder::Less
    } else if a.0 > b.0 {
        KeyOrder::Greater
    } else {
        compare_bytes(a.1.as_str().as_bytes(), b.1.as_str().as_bytes())
    }
}

} // verus!

verus! {

// ─── Value ───────────────────────────────────────────────────────────────────

#[derive(Debug, Clone, Copy)]
pub struct Value {
    pub ino: u64,
    pub size: u64,
    pub is_dir: bool,
    pub disk_index: usize,
}

/// An entry of the index as the specifications see it.
pub type EntryView = (KeyView, Value);

// ─── Nodes ───────────────────────────────────────────────────────────────────

enum Node {
    Leaf { keys: Vec<Key>, vals: Vec<Value> },
    Internal { keys: Vec<Key>, children: Vec<Node> },
}

/// The key views of a vector of keys.
spec fn key_views(keys: Seq<Key>) -> Seq<KeyView> {
    keys.map_values(|k: Key| k.kv())
}

/// The entries below a node, in left-to-right order.
spec fn node_entries(n: Node) -> Seq<EntryView>
    decreases n,
{
    match n {
        Node::Leaf { keys, vals } => Seq::new(keys@.len(), |i: int| (keys@[i].kv(), vals@[i])),
        Node::Internal { keys, children } => children_entries(children@),
    }
}

/// The entries below a run of sibling nodes, in left-to-right order.
spec fn children_entries(cs: Seq<Node>) -> Seq<EntryView>
    decreases cs,
{
    if cs.len() == 0 {
        Seq::empty()
    } else {
        children_entries(cs.drop_last()) + node_entries(cs.last())
    }
}

} // verus!

verus! {

// ─── Well-formedness ─────────────────────────────────────────────────────────

/// `k` lies in the half-open key range [lo, hi); `None` is unbounded.
pub open spec fn in_bounds(k: KeyView, lo: Option<KeyView>, hi: Option<KeyView>) -> bool {
    &&& (lo matches Some(l) ==> key_le(l, k))
    &&& (hi matches Some(h) ==> key_lt(k, h))
}

/// Keys strictly increasing.
pub open spec fn keys_sorted(ks: Seq<KeyView>) -> bool {
    forall|i: int, j: int| 0 <= i < j < ks.len() ==> key_lt(#[trigger] ks[i], #[trigger] ks[j])
}

/// Entries strictly increasing by key.
pub open spec fn entries_sorted(s: Seq<EntryView>) -> bool {
    forall|i: int, j: int| 0 <= i < j < s.len() ==> key_lt(#[trigger] s[i].0, #[trigger] s[j].0)
}

/// Every entry's key lies in [lo, hi).
pub open spec fn entries_in(s: Seq<EntryView>, lo: Option<KeyView>, hi: Option<KeyView>) -> bool {
    forall|i: int| 0 <= i < s.len() ==> in_bounds(#[trigger] s[i].0, lo, hi)
}

/// Lower bound of child `i` under separators `seps` within [lo, hi).
spec fn child_lo(seps: Seq<KeyView>, lo: Option<KeyView>, i: int) -> Option<KeyView> {
    if i == 0 {
        lo
    } else {
        Some(seps[i - 1])
    }
}

/// Upper bound of child `i` under separators `seps` within [lo, hi).
spec fn child_hi(seps: Seq<KeyView>, hi: Option<KeyView>, i: int) -> Option<KeyView> {
    if i >= seps.len() {
        hi
    } else {
        Some(seps[i])
    }
}

/// Structural invariant of a subtree whose keys must lie in [lo, hi).
spec fn wf_node(n: Node, lo: Option<KeyView>, hi: Option<KeyView>) -> bool
    decreases n,
{
    match n {
        Node::Leaf { keys, vals } => {
            &&& keys@.len() == vals@.len()
            &&& keys@.len() < ORDER
            &&& keys_sorted(key_views(keys@))
            &&& forall|i: int| 0 <= i < keys@.len() ==> in_bounds(#[trigger] keys@[i].kv(), lo, hi)
        },
        Node::Internal { keys, children } => {
            let seps = key_views(keys@);
            &&& 1 <= keys@.len() < ORDER
            &&& children@.len() == keys@.len() + 1
            &&& keys_sorted(seps)
            &&& (lo matches Some(l) ==> key_lt(l, seps[0]))
            &&& (hi matches Some(h) ==> key_lt(seps.last(), h))
            &&& forall|i: int|
                0 <= i < children@.len() ==> wf_node(
                    #[trigger] children@[i],
                    child_lo(seps, lo, i),
                    child_hi(seps, hi, i),
                )
        },
    }
}

proof fn lemma_children_entries_concat(a: Seq<Node>, b: Seq<Node>)
    ensures
        children_entries(a + b) == children_entries(a) + children_entries(b),
    decreases b.len(),
{
    if b.len() == 0 {
        assert(a + b =~= a);
        assert(children_entries(b) =~= Seq::<EntryView>::empty());
        assert(children_entries(a) + children_entries(b) =~= children_entries(a));
    } else {
        lemma_children_entries_concat(a, b.drop_last());
        assert((a + b).drop_last() =~= a + b.drop_last());
        assert((a + b).last() == b.last());
        assert(children_entries(a + b) =~= children_entries(a) + children_entries(b));
    }
}

proof fn lemma_children_entries_single(c: Node)
    ensures
        children_entries(seq![c]) == node_entries(c),
{
    assert(seq![c].drop_last() =~= Seq::<Node>::empty());
    assert(children_entries(Seq::<Node>::empty()) =~= Seq::<EntryView>::empty());
    assert(children_entries(seq![c]) =~= node_entries(c));
}

/// The entries under children `[a, b)` of a well-formed internal node are
/// sorted and lie between those children's outer bounds.
proof fn lemma_children_range(
    seps: Seq<KeyView>,
    cs: Seq<Node>,
    lo: Option<KeyView>,
    hi: Option<KeyView>,
    a: int,
    b: int,
)
    requires
        0 <= a < b <= cs.len(),
        cs.len() == seps.len() + 1,
        keys_sorted(seps),
        lo matches Some(l) ==> key_lt(l, seps[0]),
        hi matches Some(h) ==> key_lt(seps.last(), h),
        forall|i: int|
            0 <= i < cs.len() ==> wf_node(
                #[trigger] cs[i],
                child_lo(seps, lo, i),
                child_hi(seps, hi, i),
            ),
    ensures
        entries_sorted(children_entries(cs.subrange(a, b))),
        entries_in(
            children_entries(cs.subrange(a, b)),
            child_lo(seps, lo, a),
            child_hi(seps, hi, b - 1),
        ),
    decreases cs, b - a,
{
    lemma_key_order();
    let s = children_entries(cs.subrange(a, b));
    let last = cs[b - 1];
    assert(cs.subrange(a, b).drop_last() =~= cs.subrange(a, b - 1));
    assert(cs.subrange(a, b).last() == last);
    lemma_wf_entries(last, child_lo(seps, lo, b - 1), child_hi(seps, hi, b - 1));
    if b - a == 1 {
        assert(cs.subrange(a, b - 1) =~= Seq::<Node>::empty());
        assert(children_entries(Seq::<Node>::empty()) =~= Seq::<EntryView>::empty());
        assert(s =~= node_entries(last));
    } else {
        lemma_children_range(seps, cs, lo, hi, a, b - 1);
        let p = children_entries(cs.subrange(a, b - 1));
        let q = node_entries(last);
        assert(s == p + q);
        // every key of p is below seps[b - 2], every key of q is at least seps[b - 2]
        assert forall|i: int, j: int| 0 <= i < j < s.len() implies key_lt(
            #[trigger] s[i].0,
            #[trigger] s[j].0,
        ) by {
            if j < p.len() {
                assert(s[i] == p[i] && s[j] == p[j]);
            } else if i >= p.len() {
                assert(s[i] == q[i - p.len()] && s[j] == q[j - p.len()]);
            } else {
                assert(s[i] == p[i] && s[j] == q[j - p.len()]);
                assert(in_bounds(p[i].0, child_lo(seps, lo, a), child_hi(seps, hi, b - 2)));
                assert(in_bounds(q[j - p.len()].0, child_lo(seps, lo, b - 1), child_hi(seps, hi, b - 1)));
            }
        }
        assert forall|i: int| 0 <= i < s.len() implies in_bounds(
            #[trigger] s[i].0,
            child_lo(seps, lo, a),
            child_hi(seps, hi, b - 1),
        ) by {
            if i < p.len() {
                assert(s[i] == p[i]);
                assert(in_bounds(p[i].0, child_lo(seps, lo, a), child_hi(seps, hi, b - 2)));
                if b - 1 < seps.len() {
                    assert(key_lt(seps[b - 2], seps[b - 1]));
                } else {
                    if hi is Some {
                        if b - 2 < seps.len() - 1 {
                            assert(key_lt(seps[b - 2], seps.last()));
                        }
                    }
                }
            } else {
                assert(s[i] == q[i - p.len()]);
                assert(in_bounds(q[i - p.len()].0, child_lo(seps, lo, b - 1), child_hi(seps, hi, b - 1)));
                if a > 0 {
                    if a - 1 < b - 2 {
                        assert(key_lt(seps[a - 1], seps[b - 2]));
                    }
                } else {
                    if lo is Some {
                        if 0 < b - 2 {
                            assert(key_lt(seps[0], seps[b - 2]));
                        }
                    }
                }
            }
        }
    }
}

/// A well-formed subtree's entries are sorted and lie in its bounds.
proof fn lemma_wf_entries(n: Node, lo: Option<KeyView>, hi: Option<KeyView>)
    requires
        wf_node(n, lo, hi),
    ensures
        entries_sorted(node_entries(n)),
        entries_in(node_entries(n), lo, hi),
    decreases n, 0int,
{
    match n {
        Node::Leaf { keys, vals } => {
            let s = node_entries(n);
            assert forall|i: int, j: int| 0 <= i < j < s.len() implies key_lt(
                #[trigger] s[i].0,
                #[trigger] s[j].0,
            ) by {
                assert(key_views(keys@)[i] == keys@[i].kv());
                assert(key_views(keys@)[j] == keys@[j].kv());
            }
        },
        Node::Internal { keys, children } => {
            let seps = key_views(keys@);
            let cs = children@;
            assert(cs.subrange(0, cs.len() as int) =~= cs);
            lemma_children_range(seps, cs, lo, hi, 0, cs.len() as int);
        },
    }
}

} // verus!

verus! {

/// Splits the entries under an internal node around child `pos`: entries
/// of earlier children lie below its lower separator, entries of later
/// children at or above its upper one.
proof fn lemma_children_split(
    seps: Seq<KeyView>,
    cs: Seq<Node>,
    lo: Option<KeyView>,
    hi: Option<KeyView>,
    pos: int,
)
    requires
        0 <= pos < cs.len(),
        cs.len() == seps.len() + 1,
        keys_sorted(seps),
        lo matches Some(l) ==> key_lt(l, seps[0]),
        hi matches Some(h) ==> key_lt(seps.last(), h),
        forall|i: int|
            0 <= i < cs.len() ==> wf_node(
                #[trigger] cs[i],
                child_lo(seps, lo, i),
                child_hi(seps, hi, i),
            ),
    ensures
        children_entries(cs) == children_entries(cs.subrange(0, pos)) + node_entries(cs[pos])
            + children_entries(cs.subrange(pos + 1, cs.len() as int)),
        pos > 0 ==> entries_in(children_entries(cs.subrange(0, pos)), lo, Some(seps[pos - 1])),
        pos < seps.len() ==> entries_in(
            children_entries(cs.subrange(pos + 1, cs.len() as int)),
            Some(seps[pos]),
            hi,
        ),
        entries_in(node_entries(cs[pos]), child_lo(seps, lo, pos), child_hi(seps, hi, pos)),
        entries_sorted(node_entries(cs[pos])),
{
    let pre = cs.subrange(0, pos);
    let mid = seq![cs[pos]];
    let post = cs.subrange(pos + 1, cs.len() as int);
    assert(cs =~= pre + mid + post);
    lemma_children_entries_concat(pre + mid, post);
    lemma_children_entries_concat(pre, mid);
    lemma_children_entries_single(cs[pos]);
    if pos > 0 {
        lemma_children_range(seps, cs, lo, hi, 0, pos);
    }
    if pos < seps.len() {
        lemma_children_range(seps, cs, lo, hi, pos + 1, cs.len() as int);
    }
    lemma_wf_entries(cs[pos], child_lo(seps, lo, pos), child_hi(seps, hi, pos));
}

/// Some entry of `s` has key `k`.
pub open spec fn has_key(s: Seq<EntryView>, k: KeyView) -> bool {
    exists|i: int| 0 <= i < s.len() && (#[trigger] s[i]).0 == k
}

/// Number of keys below `key`: the slot where a leaf holds or would hold it.
#[verifier::loop_isolation(false)]
fn lower_pos(keys: &Vec<Key>, key: &Key) -> (r: usize)
    requires
        keys_sorted(key_views(keys@)),
    ensures
        r <= keys@.len(),
        forall|i: int| 0 <= i < r ==> key_lt(#[trigger] keys@[i].kv(), key.kv()),
        forall|i: int| r <= i < keys@.len() ==> !key_lt(#[trigger] keys@[i].kv(), key.kv()),
{
    proof {
        lemma_key_order();
    }
    let n = keys.len();
    let mut i: usize = 0;
    while i < n
        invariant
            n == keys@.len(),
            i <= n,
            forall|j: int| 0 <= j < i ==> key_lt(#[trigger] keys@[j].kv(), key.kv()),
        decreases n - i,
    {
        match compare_keys(&keys[i], key) {
            KeyOrder::Less => {
                i += 1;
            },
            _ => {
                assert(!key_lt(keys@[i as int].kv(), key.kv()));
                assert forall|j: int| i <= j < n implies !key_lt(#[trigger] keys@[j].kv(), key.kv()) by {
                    if j > i {
                        assert(key_views(keys@)[i as int] == keys@[i as int].kv());
                        assert(key_views(keys@)[j] == keys@[j].kv());
                        assert(key_lt(keys@[i as int].kv(), keys@[j].kv()));
                        if key_lt(keys@[j].kv(), key.kv()) {
                            assert(key_lt(keys@[i as int].kv(), key.kv()));
                        }
                    }
                }
                return i;
            },
        }
    }
    i
}

/// Number of separators at or below `key`: the child that covers it.
#[verifier::loop_isolation(false)]
fn upper_pos(keys: &Vec<Key>, key: &Key) -> (r: usize)
    requires
        keys_sorted(key_views(keys@)),
    ensures
        r <= keys@.len(),
        forall|i: int| 0 <= i < r ==> key_le(#[trigger] keys@[i].kv(), key.kv()),
        forall|i: int| r <= i < keys@.len() ==> key_lt(key.kv(), #[trigger] keys@[i].kv()),
{
    proof {
        lemma_key_order();
    }
    let n = keys.len();
    let mut i: usize = 0;
    while i < n
        invariant
            n == keys@.len(),
            i <= n,
            forall|j: int| 0 <= j < i ==> key_le(#[trigger] keys@[j].kv(), key.kv()),
        decreases n - i,
    {
        match compare_keys(&keys[i], key) {
            KeyOrder::Greater => {
                assert(key_lt(key.kv(), keys@[i as int].kv()));
                assert forall|j: int| i <= j < n implies key_lt(key.kv(), #[trigger] keys@[j].kv()) by {
                    if j > i {
                        assert(key_views(keys@)[i as int] == keys@[i as int].kv());
                        assert(key_views(keys@)[j] == keys@[j].kv());
                        assert(key_lt(keys@[i as int].kv(), keys@[j].kv()));
                    }
                }
                return i;
            },
            _ => {
                i += 1;
            },
        }
    }
    i
}

impl Node {
    fn new_leaf() -> (r: Node)
        ensures
            wf_node(r, None, None),
            node_entries(r) == Seq::<EntryView>::empty(),
            r matches Node::Leaf { keys, vals } && keys@.len() == 0 && vals@.len() == 0,
    {
        let r = Node::Leaf { keys: Vec::new(), vals: Vec::new() };
        assert(node_entries(r) =~= Seq::<EntryView>::empty());
        r
    }

    fn new_internal(keys: Vec<Key>, children: Vec<Node>) -> (r: Node)
        ensures
            r == (Node::Internal { keys, children }),
    {
        Node::Internal { keys, children }
    }

    fn is_leaf(&self) -> (r: bool)
        ensures
            r == (*self is Leaf),
    {
        match self {
            Node::Leaf { .. } => true,
            Node::Internal { .. } => false,
        }
    }

    fn key_count(&self) -> (r: usize)
        ensures
            r == (match *self {
                Node::Leaf { keys, .. } => keys@.len(),
                Node::Internal { keys, .. } => keys@.len(),
            }),
    {
        match self {
            Node::Leaf { keys, .. } => keys.len(),
            Node::Internal { keys, .. } => keys.len(),
        }
    }

    fn is_full(&self) -> (r: bool)
        ensures
            r == (match *self {
                Node::Leaf { keys, .. } => keys@.len(),
                Node::Internal { keys, .. } => keys@.len(),
            } >= ORDER - 1),
    {
        self.key_count() >= ORDER - 1
    }

    /// Search for a value by key.
    fn get(&self, key: &Key, Ghost(lo): Ghost<Option<KeyView>>, Ghost(hi): Ghost<Option<KeyView>>) -> (r: Option<&Value>)
        requires
            wf_node(*self, lo, hi),
            in_bounds(key.kv(), lo, hi),
        ensures
            r matches Some(v) ==> node_entries(*self).contains((key.kv(), *v)),
            r is None ==> !has_key(node_entries(*self), key.kv()),
        decreases *self,
    {
        proof {
            lemma_key_order();
        }
        match self {
            Node::Leaf { keys, vals } => {
                let pos = lower_pos(keys, key);
                if pos < keys.len() {
                    match compare_keys(&keys[pos], key) {
                        KeyOrder::Equal => {
                            let ghost s = node_entries(*self);
                            assert(s[pos as int] == (key.kv(), vals@[pos as int]));
                            return Some(&vals[pos]);
                        },
                        _ => {},
                    }
                }
                proof {
                    let s = node_entries(*self);
                    assert forall|i: int| 0 <= i < s.len() implies (#[trigger] s[i]).0 != key.kv() by {
                        assert(s[i].0 == keys@[i].kv());
                        if i > pos {
                            assert(key_views(keys@)[pos as int] == keys@[pos as int].kv());
                            assert(key_views(keys@)[i] == keys@[i].kv());
                        }
                    }
                }
                None
            },
            Node::Internal { keys, children } => {
                let pos = upper_pos(keys, key);
                let ghost seps = key_views(keys@);
                let ghost clo = child_lo(seps, lo, pos as int);
                let ghost chi = child_hi(seps, hi, pos as int);
                proof {
                    assert(wf_node(children@[pos as int], clo, chi));
                    if pos > 0 {
                        assert(seps[pos - 1] == keys@[pos - 1].kv());
                    }
                    if pos < keys@.len() {
                        assert(seps[pos as int] == keys@[pos as int].kv());
                    }
                    lemma_children_split(seps, children@, lo, hi, pos as int);
                }
                let r = children[pos].get(key, Ghost(clo), Ghost(chi));
                proof {
                    let cs = children@;
                    let p = children_entries(cs.subrange(0, pos as int));
                    let c = node_entries(cs[pos as int]);
                    let q = children_entries(cs.subrange(pos + 1, cs.len() as int));
                    let s = node_entries(*self);
                    assert(s == p + c + q);
                    match r {
                        Some(v) => {
                            let j = choose|j: int| 0 <= j < c.len() && c[j] == (key.kv(), *v);
                            assert(s[p.len() + j] == c[j]);
                        },
                        None => {
                            assert forall|i: int| 0 <= i < s.len() implies (#[trigger] s[i]).0 != key.kv() by {
                                if i < p.len() {
                                    assert(s[i] == p[i]);
                                    assert(in_bounds(p[i].0, lo, Some(seps[pos - 1])));
                                } else if i < p.len() + c.len() {
                                    assert(s[i] == c[i - p.len()]);
                                } else {
                                    assert(s[i] == q[i - p.len() - c.len()]);
                                    assert(in_bounds(q[i - p.len() - c.len()].0, Some(seps[pos as int]), hi));
                                }
                            }
                        },
                    }
                }
                r
            },
        }
    }
}

} // verus!

verus! {

// ─── Insertion ───────────────────────────────────────────────────────────────

/// `s2` is `s` with the entry for `k` set to `v`: every other entry kept,
/// one entry more exactly when `k` was absent.
pub open spec fn upserted(s: Seq<EntryView>, s2: Seq<EntryView>, k: KeyView, v: Value) -> bool {
    &&& forall|k2: KeyView, v2: Value|
        #[trigger] s2.contains((k2, v2)) <==> ((k2 == k && v2 == v) || (k2 != k && s.contains(
            (k2, v2),
        )))
    &&& s2.len() == s.len() + (if has_key(s, k) {
        0int
    } else {
        1int
    })
}

/// `p` lies strictly inside (lo, hi).
pub open spec fn strictly_inside(p: KeyView, lo: Option<KeyView>, hi: Option<KeyView>) -> bool {
    &&& (lo matches Some(l) ==> key_lt(l, p))
    &&& (hi matches Some(h) ==> key_lt(p, h))
}

/// Result of inserting into a node — may produce a split.
enum InsertResult {
    Fits,
    Split(Key, Node),
}

proof fn lemma_no_key_outside(s: Seq<EntryView>, lo: Option<KeyView>, hi: Option<KeyView>, k: KeyView)
    requires
        entries_in(s, lo, hi),
        !in_bounds(k, lo, hi),
    ensures
        !has_key(s, k),
{
    if has_key(s, k) {
        let i = choose|i: int| 0 <= i < s.len() && (#[trigger] s[i]).0 == k;
        assert(in_bounds(s[i].0, lo, hi));
    }
}

proof fn lemma_upsert_lift(
    p: Seq<EntryView>,
    e: Seq<EntryView>,
    e2: Seq<EntryView>,
    q: Seq<EntryView>,
    k: KeyView,
    v: Value,
)
    requires
        upserted(e, e2, k, v),
        !has_key(p, k),
        !has_key(q, k),
    ensures
        upserted(p + e + q, p + e2 + q, k, v),
{
    let s = p + e + q;
    let s2 = p + e2 + q;
    assert forall|k2: KeyView, v2: Value| #[trigger] s2.contains((k2, v2)) <==> ((k2 == k && v2 == v)
        || (k2 != k && s.contains((k2, v2)))) by {
        if s2.contains((k2, v2)) {
            let i = choose|i: int| 0 <= i < s2.len() && s2[i] == (k2, v2);
            if i < p.len() {
                assert(s2[i] == p[i]);
                assert(s[i] == p[i]);
                if k2 == k {
                    assert(p[i].0 == k);
                }
            } else if i < p.len() + e2.len() {
                assert(s2[i] == e2[i - p.len()]);
                assert(e2.contains((k2, v2)));
                if k2 != k {
                    assert(e.contains((k2, v2)));
                    let j = choose|j: int| 0 <= j < e.len() && e[j] == (k2, v2);
                    assert(s[p.len() + j] == e[j]);
                }
            } else {
                let j = i - p.len() - e2.len();
                assert(s2[i] == q[j]);
                assert(s[p.len() + e.len() + j] == q[j]);
                if k2 == k {
                    assert(q[j].0 == k);
                }
            }
        }
        if (k2 == k && v2 == v) {
            assert(e2.contains((k, v)));
            let j = choose|j: int| 0 <= j < e2.len() && e2[j] == (k, v);
            assert(s2[p.len() + j] == e2[j]);
        }
        if k2 != k && s.contains((k2, v2)) {
            let i = choose|i: int| 0 <= i < s.len() && s[i] == (k2, v2);
            if i < p.len() {
                assert(s[i] == p[i]);
                assert(s2[i] == p[i]);
            } else if i < p.len() + e.len() {
                assert(s[i] == e[i - p.len()]);
                assert(e.contains((k2, v2)));
                assert(e2.contains((k2, v2)));
                let j = choose|j: int| 0 <= j < e2.len() && e2[j] == (k2, v2);
                assert(s2[p.len() + j] == e2[j]);
            } else {
                let j = i - p.len() - e.len();
                assert(s[i] == q[j]);
                assert(s2[p.len() + e2.len() + j] == q[j]);
            }
        }
    }
    assert(has_key(s, k) == has_key(e, k)) by {
        if has_key(s, k) {
            let i = choose|i: int| 0 <= i < s.len() && (#[trigger] s[i]).0 == k;
            if i < p.len() {
                assert(s[i] == p[i]);
            } else if i < p.len() + e.len() {
                assert(s[i] == e[i - p.len()]);
            } else {
                assert(s[i] == q[i - p.len() - e.len()]);
            }
        }
        if has_key(e, k) {
            let j = choose|j: int| 0 <= j < e.len() && (#[trigger] e[j]).0 == k;
            assert(s[p.len() + j] == e[j]);
        }
    }
}

/// A copy of a key (same parent and same name).
fn key_copy(k: &Key) -> (r: Key)
    ensures
        r.kv() == k.kv(),
{
    Key(k.0, k.1.clone())
}

} // verus!

verus! {

/// Insertion into a leaf, given as its key and value vectors.
fn leaf_insert(keys: &mut Vec<Key>, vals: &mut Vec<Value>, key: Key, val: Value, Ghost(lo): Ghost<Option<KeyView>>, Ghost(hi): Ghost<Option<KeyView>>) -> (r: InsertResult)
    requires
        wf_node(Node::Leaf { keys: *old(keys), vals: *old(vals) }, lo, hi),
        in_bounds(key.kv(), lo, hi),
    ensures
        insert_post(
            Node::Leaf { keys: *old(keys), vals: *old(vals) },
            Node::Leaf { keys: *final(keys), vals: *final(vals) },
            r,
            key.kv(),
            val,
            lo,
            hi,
        ),
{
    proof {
        lemma_key_order();
    }
        let ghost k = key.kv();
        let ghost s = node_entries(Node::Leaf { keys: *keys, vals: *vals });
        let pos = lower_pos(keys, &key);
        if pos < keys.len() {
            match compare_keys(&keys[pos], &key) {
                KeyOrder::Equal => {
                    vals[pos] = val;
                    proof {
                        let s2 = node_entries(Node::Leaf { keys: *keys, vals: *vals });
                        assert(s2 =~= s.update(pos as int, (k, val)));
                        assert forall|i: int| 0 <= i < s.len() && i != pos implies (#[trigger] s[i]).0 != k by {
                            assert(key_views(keys@)[i] == keys@[i].kv());
                            assert(key_views(keys@)[pos as int] == keys@[pos as int].kv());
                        }
                        assert(has_key(s, k)) by {
                            assert(s[pos as int].0 == k);
                        }
                        assert forall|k2: KeyView, v2: Value| #[trigger] s2.contains((k2, v2)) <==> ((k2 == k && v2 == val)
                            || (k2 != k && s.contains((k2, v2)))) by {
                            if s2.contains((k2, v2)) {
                                let i = choose|i: int| 0 <= i < s2.len() && s2[i] == (k2, v2);
                                if i != pos {
                                    assert(s[i] == s2[i]);
                                }
                            }
                            if k2 == k && v2 == val {
                                assert(s2[pos as int] == (k, val));
                            }
                            if k2 != k && s.contains((k2, v2)) {
                                let i = choose|i: int| 0 <= i < s.len() && s[i] == (k2, v2);
                                assert(i != pos);
                                assert(s2[i] == s[i]);
                            }
                        }
                    }
                    return InsertResult::Fits;
                },
                _ => {},
            }
        }
        let ghost old_keys = keys@;
        proof {
            assert forall|i: int| 0 <= i < s.len() implies (#[trigger] s[i]).0 != k by {
                assert(s[i].0 == keys@[i].kv());
                if i > pos {
                    assert(key_views(keys@)[pos as int] == keys@[pos as int].kv());
                    assert(key_views(keys@)[i] == keys@[i].kv());
                }
            }
        }
        keys.insert(pos, key);
        vals.insert(pos, val);
        let ghost s2 = node_entries(Node::Leaf { keys: *keys, vals: *vals });
        proof {
            assert(s2 =~= s.insert(pos as int, (k, val)));
            assert(!has_key(s, k));
            assert forall|k2: KeyView, v2: Value| #[trigger] s2.contains((k2, v2)) <==> ((k2 == k && v2 == val)
                || (k2 != k && s.contains((k2, v2)))) by {
                if s2.contains((k2, v2)) {
                    let i = choose|i: int| 0 <= i < s2.len() && s2[i] == (k2, v2);
                    if i < pos {
                        assert(s[i] == s2[i]);
                    } else if i > pos {
                        assert(s[i - 1] == s2[i]);
                    }
                }
                if k2 == k && v2 == val {
                    assert(s2[pos as int] == (k, val));
                }
                if k2 != k && s.contains((k2, v2)) {
                    let i = choose|i: int| 0 <= i < s.len() && s[i] == (k2, v2);
                    if i < pos {
                        assert(s2[i] == s[i]);
                    } else {
                        assert(s2[i + 1] == s[i]);
                    }
                }
            }
            assert(key_views(keys@) =~= key_views(old_keys).insert(pos as int, k));
            assert forall|i: int, j: int| 0 <= i < j < keys@.len() implies key_lt(
                #[trigger] key_views(keys@)[i],
                #[trigger] key_views(keys@)[j],
            ) by {
                let ks = key_views(old_keys);
                if j < pos {
                    assert(key_lt(ks[i], ks[j]));
                } else if i > pos {
                    assert(key_lt(ks[i - 1], ks[j - 1]));
                } else if i == pos {
                    assert(key_lt(k, ks[j - 1])) by {
                        assert(old_keys[j - 1].kv() == ks[j - 1]);
                        assert(s[j - 1].0 == old_keys[j - 1].kv());
                        assert(!key_lt(ks[j - 1], k));
                        assert(ks[j - 1] != k);
                    }
                } else if j == pos {
                    assert(old_keys[i].kv() == ks[i]);
                } else {
                    assert(key_lt(ks[i], ks[j - 1]));
                }
            }
            assert forall|i: int| 0 <= i < keys@.len() implies in_bounds(#[trigger] keys@[i].kv(), lo, hi) by {
                if i < pos {
                    assert(keys@[i] == old_keys[i]);
                } else if i > pos {
                    assert(keys@[i] == old_keys[i - 1]);
                }
            }
        }
        if keys.len() >= ORDER {
            let mid = keys.len() / 2;
            let ghost all_keys = keys@;
            let ghost all_vals = vals@;
            let right_keys = keys.split_off(mid);
            let right_vals = vals.split_off(mid);
            let promoted = key_copy(&right_keys[0]);
            let right = Node::Leaf { keys: right_keys, vals: right_vals };
            proof {
                let pk = promoted.kv();
                let ks = key_views(all_keys);
                assert(ks[mid as int] == pk);
                assert(node_entries(Node::Leaf { keys: *keys, vals: *vals }) + node_entries(right) =~= s2);
                assert(key_views(keys@) =~= ks.subrange(0, mid as int));
                assert(key_views(right_keys@) =~= ks.subrange(mid as int, ks.len() as int));
                assert forall|i: int| 0 <= i < keys@.len() implies in_bounds(#[trigger] keys@[i].kv(), lo, Some(pk)) by {
                    assert(keys@[i] == all_keys[i]);
                    assert(ks[i] == all_keys[i].kv());
                    assert(key_lt(ks[i], ks[mid as int]));
                }
                assert forall|i: int| 0 <= i < right_keys@.len() implies in_bounds(#[trigger] right_keys@[i].kv(), Some(pk), hi) by {
                    assert(right_keys@[i] == all_keys[mid + i]);
                    assert(ks[mid + i] == all_keys[mid + i].kv());
                    if i > 0 {
                        assert(key_lt(ks[mid as int], ks[mid + i]));
                    }
                }
                assert(keys@[0] == all_keys[0]);
                assert(ks[0] == all_keys[0].kv());
                assert(key_lt(ks[0], ks[mid as int]));
                assert(in_bounds(all_keys[mid as int].kv(), lo, hi));
            }
            InsertResult::Split(promoted, right)
        } else {
            InsertResult::Fits
        }
}

/// Insertion into an internal node, given as its separators and children.
#[verifier::rlimit(80)]
fn internal_insert(keys: &mut Vec<Key>, children: &mut Vec<Node>, key: Key, val: Value, Ghost(lo): Ghost<Option<KeyView>>, Ghost(hi): Ghost<Option<KeyView>>) -> (r: InsertResult)
    requires
        wf_node(Node::Internal { keys: *old(keys), children: *old(children) }, lo, hi),
        in_bounds(key.kv(), lo, hi),
    ensures
        insert_post(
            Node::Internal { keys: *old(keys), children: *old(children) },
            Node::Internal { keys: *final(keys), children: *final(children) },
            r,
            key.kv(),
            val,
            lo,
            hi,
        ),
    decreases *old(children),
{
    proof {
        lemma_key_order();
    }
        let ghost k = key.kv();
        let ghost old_node = Node::Internal { keys: *keys, children: *children };
        let ghost seps = key_views(keys@);
        let ghost cs = children@;
        let pos = upper_pos(keys, &key);
        let ghost clo = child_lo(seps, lo, pos as int);
        let ghost chi = child_hi(seps, hi, pos as int);
        proof {
            assert(wf_node(cs[pos as int], clo, chi));
            if pos > 0 {
                assert(seps[pos - 1] == keys@[pos - 1].kv());
            }
            if pos < keys@.len() {
                assert(seps[pos as int] == keys@[pos as int].kv());
            }
            lemma_children_split(seps, cs, lo, hi, pos as int);
        }
        let ghost pre = children_entries(cs.subrange(0, pos as int));
        let ghost post = children_entries(cs.subrange(pos + 1, cs.len() as int));
        proof {
            if pos > 0 {
                lemma_no_key_outside(pre, lo, Some(seps[pos - 1]), k);
            } else {
                assert(cs.subrange(0, pos as int) =~= Seq::<Node>::empty());
                assert(children_entries(Seq::<Node>::empty()) =~= Seq::<EntryView>::empty());
            }
            if pos < seps.len() {
                lemma_no_key_outside(post, Some(seps[pos as int]), hi, k);
            } else {
                assert(cs.subrange(pos + 1, cs.len() as int) =~= Seq::<Node>::empty());
                assert(children_entries(Seq::<Node>::empty()) =~= Seq::<EntryView>::empty());
            }
        }
        let res = children[pos].insert(key, val, Ghost(clo), Ghost(chi));
        match res {
            InsertResult::Fits => {
                proof {
                    let c2 = children@[pos as int];
                    assert(children@ =~= cs.update(pos as int, c2));
                    lemma_children_split_exact(cs, pos as int, c2);
                    lemma_upsert_lift(pre, node_entries(cs[pos as int]), node_entries(c2), post, k, val);
                    assert forall|i: int| 0 <= i < children@.len() implies wf_node(
                        #[trigger] children@[i],
                        child_lo(seps, lo, i),
                        child_hi(seps, hi, i),
                    ) by {
                        if i != pos {
                            assert(children@[i] == cs[i]);
                        }
                    }
                }
                InsertResult::Fits
            },
            InsertResult::Split(promoted, right_child) => {
                let ghost c2 = children@[pos as int];
                let ghost pk = promoted.kv();
                keys.insert(pos, promoted);
                children.insert(pos + 1, right_child);
                let ghost seps2 = key_views(keys@);
                proof {
                    assert(children@ =~= cs.update(pos as int, c2).insert(pos + 1, right_child));
                    lemma_children_split_pair(cs, pos as int, c2, right_child);
                    lemma_upsert_lift(
                        pre,
                        node_entries(cs[pos as int]),
                        node_entries(c2) + node_entries(right_child),
                        post,
                        k,
                        val,
                    );
                    assert(pre + (node_entries(c2) + node_entries(right_child)) + post
                        =~= pre + node_entries(c2) + node_entries(right_child) + post);
                    assert(seps2 =~= seps.insert(pos as int, pk));
                    lemma_internal_insert_wf(seps, cs, lo, hi, pos as int, pk, c2, right_child);
                    assert(children_ok(seps2, children@, lo, hi));
                }
                if keys.len() >= ORDER {
                    let ghost full = Node::Internal { keys: *keys, children: *children };
                    let ghost all_keys = keys@;
                    let ghost all_children = children@;
                    let mid = keys.len() / 2;
                    let promoted2 = key_copy(&keys[mid]);
                    let right_keys = keys.split_off(mid + 1);
                    keys.pop();
                    let right_children = children.split_off(mid + 1);
                    let right = Node::new_internal(right_keys, right_children);
                    proof {
                        assert(keys@ =~= all_keys.subrange(0, mid as int));
                        assert(all_children =~= children@ + right_children@);
                        lemma_children_entries_concat(children@, right_children@);
                        lemma_internal_split_wf(
                            key_views(all_keys),
                            all_children,
                            lo,
                            hi,
                            mid as int,
                        );
                        assert(key_views(keys@) =~= key_views(all_keys).subrange(0, mid as int));
                        assert(key_views(right_keys@) =~= key_views(all_keys).subrange(
                            mid + 1,
                            all_keys.len() as int,
                        ));
                        assert(promoted2.kv() == key_views(all_keys)[mid as int]);
                    }
                    InsertResult::Split(promoted2, right)
                } else {
                    proof {
                        assert(wf_node(Node::Internal { keys: *keys, children: *children }, lo, hi));
                    }
                    InsertResult::Fits
                }
            },
        }
}

/// What insertion into `old` guarantees about the node `new` it leaves and the result `r`.
spec fn insert_post(old: Node, new: Node, r: InsertResult, k: KeyView, v: Value, lo: Option<KeyView>, hi: Option<KeyView>) -> bool {
    match r {
        InsertResult::Fits => {
            &&& wf_node(new, lo, hi)
            &&& upserted(node_entries(old), node_entries(new), k, v)
        },
        InsertResult::Split(p, right) => {
            &&& strictly_inside(p.kv(), lo, hi)
            &&& wf_node(new, lo, Some(p.kv()))
            &&& wf_node(right, Some(p.kv()), hi)
            &&& upserted(node_entries(old), node_entries(new) + node_entries(right), k, v)
        },
    }
}

impl Node {
    /// Insert key-value, return split info if node overflows.
    fn insert(&mut self, key: Key, val: Value, Ghost(lo): Ghost<Option<KeyView>>, Ghost(hi): Ghost<Option<KeyView>>) -> (r: InsertResult)
        requires
            wf_node(*old(self), lo, hi),
            in_bounds(key.kv(), lo, hi),
        ensures
            insert_post(*old(self), *final(self), r, key.kv(), val, lo, hi),
        decreases *old(self),
    {
        match self {
            Node::Leaf { keys, vals } => leaf_insert(keys, vals, key, val, Ghost(lo), Ghost(hi)),
            Node::Internal { keys, children } => internal_insert(keys, children, key, val, Ghost(lo), Ghost(hi)),
        }
    }
}

} // verus!

verus! {

/// Separators `seps` and children `cs` fit together under bounds [lo, hi).
spec fn children_ok(seps: Seq<KeyView>, cs: Seq<Node>, lo: Option<KeyView>, hi: Option<KeyView>) -> bool {
    &&& seps.len() >= 1
    &&& cs.len() == seps.len() + 1
    &&& keys_sorted(seps)
    &&& (lo matches Some(l) ==> key_lt(l, seps[0]))
    &&& (hi matches Some(h) ==> key_lt(seps.last(), h))
    &&& forall|i: int|
        0 <= i < cs.len() ==> wf_node(#[trigger] cs[i], child_lo(seps, lo, i), child_hi(seps, hi, i))
}

proof fn lemma_children_split_exact(cs: Seq<Node>, pos: int, c2: Node)
    requires
        0 <= pos < cs.len(),
    ensures
        children_entries(cs.update(pos, c2)) == children_entries(cs.subrange(0, pos)) + node_entries(c2)
            + children_entries(cs.subrange(pos + 1, cs.len() as int)),
{
    let pre = cs.subrange(0, pos);
    let post = cs.subrange(pos + 1, cs.len() as int);
    assert(cs.update(pos, c2) =~= pre + seq![c2] + post);
    lemma_children_entries_concat(pre + seq![c2], post);
    lemma_children_entries_concat(pre, seq![c2]);
    lemma_children_entries_single(c2);
}

proof fn lemma_children_split_pair(cs: Seq<Node>, pos: int, c2: Node, r: Node)
    requires
        0 <= pos < cs.len(),
    ensures
        children_entries(cs.update(pos, c2).insert(pos + 1, r)) == children_entries(cs.subrange(0, pos))
            + node_entries(c2) + node_entries(r) + children_entries(
            cs.subrange(pos + 1, cs.len() as int),
        ),
{
    let pre = cs.subrange(0, pos);
    let post = cs.subrange(pos + 1, cs.len() as int);
    assert(cs.update(pos, c2).insert(pos + 1, r) =~= pre + seq![c2] + seq![r] + post);
    lemma_children_entries_concat(pre + seq![c2] + seq![r], post);
    lemma_children_entries_concat(pre + seq![c2], seq![r]);
    lemma_children_entries_concat(pre, seq![c2]);
    lemma_children_entries_single(c2);
    lemma_children_entries_single(r);
}

/// Replacing child `pos` by the two halves of its split, with the promoted
/// key inserted among the separators, keeps the children consistent.
proof fn lemma_internal_insert_wf(
    seps: Seq<KeyView>,
    cs: Seq<Node>,
    lo: Option<KeyView>,
    hi: Option<KeyView>,
    pos: int,
    pk: KeyView,
    c2: Node,
    r: Node,
)
    requires
        children_ok(seps, cs, lo, hi),
        0 <= pos < cs.len(),
        strictly_inside(pk, child_lo(seps, lo, pos), child_hi(seps, hi, pos)),
        wf_node(c2, child_lo(seps, lo, pos), Some(pk)),
        wf_node(r, Some(pk), child_hi(seps, hi, pos)),
    ensures
        children_ok(seps.insert(pos, pk), cs.update(pos, c2).insert(pos + 1, r), lo, hi),
{
    lemma_key_order();
    let seps2 = seps.insert(pos, pk);
    let cs2 = cs.update(pos, c2).insert(pos + 1, r);
    assert forall|i: int, j: int| 0 <= i < j < seps2.len() implies key_lt(
        #[trigger] seps2[i],
        #[trigger] seps2[j],
    ) by {
        if j < pos {
            assert(key_lt(seps[i], seps[j]));
        } else if i > pos {
            assert(key_lt(seps[i - 1], seps[j - 1]));
        } else if i == pos {
            assert(seps2[j] == seps[j - 1]);
            assert(key_lt(pk, seps[pos]));
            if j - 1 > pos {
                assert(key_lt(seps[pos], seps[j - 1]));
            }
        } else if j == pos {
            assert(key_lt(seps[pos - 1], pk));
            if i < pos - 1 {
                assert(key_lt(seps[i], seps[pos - 1]));
            }
        } else {
            assert(key_lt(seps[i], seps[j - 1]));
        }
    }
    assert(lo matches Some(l) ==> key_lt(l, seps2[0])) by {
        if pos > 0 {
            assert(seps2[0] == seps[0]);
        }
    }
    assert(hi matches Some(h) ==> key_lt(seps2.last(), h)) by {
        if pos < seps.len() {
            assert(seps2.last() == seps.last());
        }
    }
    assert forall|i: int| 0 <= i < cs2.len() implies wf_node(
        #[trigger] cs2[i],
        child_lo(seps2, lo, i),
        child_hi(seps2, hi, i),
    ) by {
        if i < pos {
            assert(cs2[i] == cs[i]);
            assert(child_lo(seps2, lo, i) == child_lo(seps, lo, i));
            assert(child_hi(seps2, hi, i) == child_hi(seps, hi, i));
        } else if i == pos {
            assert(cs2[i] == c2);
            assert(child_lo(seps2, lo, i) == child_lo(seps, lo, i));
        } else if i == pos + 1 {
            assert(cs2[i] == r);
            assert(child_hi(seps2, hi, i) == child_hi(seps, hi, pos));
        } else {
            assert(cs2[i] == cs[i - 1]);
            assert(child_lo(seps2, lo, i) == child_lo(seps, lo, i - 1));
            assert(child_hi(seps2, hi, i) == child_hi(seps, hi, i - 1));
        }
    }
}

/// Splitting a full internal node around its middle separator gives two
/// consistent halves, with the middle separator strictly inside the bounds.
proof fn lemma_internal_split_wf(
    seps: Seq<KeyView>,
    cs: Seq<Node>,
    lo: Option<KeyView>,
    hi: Option<KeyView>,
    mid: int,
)
    requires
        children_ok(seps, cs, lo, hi),
        seps.len() == ORDER,
        mid == ORDER / 2,
    ensures
        strictly_inside(seps[mid], lo, hi),
        children_ok(seps.subrange(0, mid), cs.subrange(0, mid + 1), lo, Some(seps[mid])),
        children_ok(
            seps.subrange(mid + 1, seps.len() as int),
            cs.subrange(mid + 1, cs.len() as int),
            Some(seps[mid]),
            hi,
        ),
{
    lemma_key_order();
    let ls = seps.subrange(0, mid);
    let lc = cs.subrange(0, mid + 1);
    let rs = seps.subrange(mid + 1, seps.len() as int);
    let rc = cs.subrange(mid + 1, cs.len() as int);
    assert(key_lt(seps[0], seps[mid]));
    assert(key_lt(seps[mid], seps.last()));
    assert(key_lt(ls.last(), seps[mid]));
    assert(key_lt(seps[mid], rs[0]));
    assert forall|i: int| 0 <= i < lc.len() implies wf_node(
        #[trigger] lc[i],
        child_lo(ls, lo, i),
        child_hi(ls, Some(seps[mid]), i),
    ) by {
        assert(lc[i] == cs[i]);
        assert(child_lo(ls, lo, i) == child_lo(seps, lo, i));
        assert(child_hi(ls, Some(seps[mid]), i) == child_hi(seps, hi, i));
    }
    assert forall|i: int| 0 <= i < rc.len() implies wf_node(
        #[trigger] rc[i],
        child_lo(rs, Some(seps[mid]), i),
        child_hi(rs, hi, i),
    ) by {
        assert(rc[i] == cs[mid + 1 + i]);
        assert(child_lo(rs, Some(seps[mid]), i) == child_lo(seps, lo, mid + 1 + i));
        assert(child_hi(rs, hi, i) == child_hi(seps, hi, mid + 1 + i));
    }
}

} // verus!

verus! {

// ─── Removal ─────────────────────────────────────────────────────────────────

/// `s2` is `s` without any entry for `k`: every other entry kept, one fewer
/// exactly when `k` was present.
pub open spec fn without_key(s: Seq<EntryView>, s2: Seq<EntryView>, k: KeyView) -> bool {
    &&& forall|k2: KeyView, v2: Value|
        #[trigger] s2.contains((k2, v2)) <==> (k2 != k && s.contains((k2, v2)))
    &&& s2.len() == s.len() - (if has_key(s, k) {
        1int
    } else {
        0int
    })
}

/// Result of removing from a node.
enum RemoveResult {
    Found(Option<Value>),
    NotFound,
}

/// What removal from `old` guarantees about the node `new` it leaves and the result `r`.
spec fn remove_post(old: Node, new: Node, r: RemoveResult, k: KeyView, lo: Option<KeyView>, hi: Option<KeyView>) -> bool {
    &&& wf_node(new, lo, hi)
    &&& without_key(node_entries(old), node_entries(new), k)
    &&& match r {
        RemoveResult::Found(Some(v)) => node_entries(old).contains((k, v)),
        RemoveResult::Found(None) => false,
        RemoveResult::NotFound => !has_key(node_entries(old), k),
    }
}

proof fn lemma_remove_lift(p: Seq<EntryView>, e: Seq<EntryView>, e2: Seq<EntryView>, q: Seq<EntryView>, k: KeyView)
    requires
        without_key(e, e2, k),
        !has_key(p, k),
        !has_key(q, k),
    ensures
        without_key(p + e + q, p + e2 + q, k),
        has_key(p + e + q, k) == has_key(e, k),
        forall|v: Value| e.contains((k, v)) ==> #[trigger] (p + e + q).contains((k, v)),
{
    let s = p + e + q;
    let s2 = p + e2 + q;
    assert forall|k2: KeyView, v2: Value| #[trigger] s2.contains((k2, v2)) <==> (k2 != k && s.contains((k2, v2))) by {
        if s2.contains((k2, v2)) {
            let i = choose|i: int| 0 <= i < s2.len() && s2[i] == (k2, v2);
            if i < p.len() {
                assert(s2[i] == p[i] && s[i] == p[i]);
                if k2 == k {
                    assert(p[i].0 == k);
                }
            } else if i < p.len() + e2.len() {
                assert(s2[i] == e2[i - p.len()]);
                assert(e2.contains((k2, v2)));
                let j = choose|j: int| 0 <= j < e.len() && e[j] == (k2, v2);
                assert(s[p.len() + j] == e[j]);
            } else {
                let j = i - p.len() - e2.len();
                assert(s2[i] == q[j]);
                assert(s[p.len() + e.len() + j] == q[j]);
                if k2 == k {
                    assert(q[j].0 == k);
                }
            }
        }
        if k2 != k && s.contains((k2, v2)) {
            let i = choose|i: int| 0 <= i < s.len() && s[i] == (k2, v2);
            if i < p.len() {
                assert(s[i] == p[i] && s2[i] == p[i]);
            } else if i < p.len() + e.len() {
                assert(s[i] == e[i - p.len()]);
                assert(e.contains((k2, v2)));
                assert(e2.contains((k2, v2)));
                let j = choose|j: int| 0 <= j < e2.len() && e2[j] == (k2, v2);
                assert(s2[p.len() + j] == e2[j]);
            } else {
                let j = i - p.len() - e.len();
                assert(s[i] == q[j]);
                assert(s2[p.len() + e2.len() + j] == q[j]);
            }
        }
    }
    assert(has_key(s, k) == has_key(e, k)) by {
        if has_key(s, k) {
            let i = choose|i: int| 0 <= i < s.len() && (#[trigger] s[i]).0 == k;
            if i < p.len() {
                assert(s[i] == p[i]);
            } else if i < p.len() + e.len() {
                assert(s[i] == e[i - p.len()]);
            } else {
                assert(s[i] == q[i - p.len() - e.len()]);
            }
        }
        if has_key(e, k) {
            let j = choose|j: int| 0 <= j < e.len() && (#[trigger] e[j]).0 == k;
            assert(s[p.len() + j] == e[j]);
        }
    }
    assert forall|v: Value| e.contains((k, v)) implies #[trigger] s.contains((k, v)) by {
        let j = choose|j: int| 0 <= j < e.len() && e[j] == (k, v);
        assert(s[p.len() + j] == e[j]);
    }
}

/// Removal from a leaf, given as its key and value vectors.
fn leaf_remove(keys: &mut Vec<Key>, vals: &mut Vec<Value>, key: &Key, Ghost(lo): Ghost<Option<KeyView>>, Ghost(hi): Ghost<Option<KeyView>>) -> (r: RemoveResult)
    requires
        wf_node(Node::Leaf { keys: *old(keys), vals: *old(vals) }, lo, hi),
    ensures
        remove_post(
            Node::Leaf { keys: *old(keys), vals: *old(vals) },
            Node::Leaf { keys: *final(keys), vals: *final(vals) },
            r,
            key.kv(),
            lo,
            hi,
        ),
{
    proof {
        lemma_key_order();
    }
    let ghost k = key.kv();
    let ghost s = node_entries(Node::Leaf { keys: *keys, vals: *vals });
    let ghost old_keys = keys@;
    let pos = lower_pos(keys, key);
    if pos < keys.len() {
        match compare_keys(&keys[pos], key) {
            KeyOrder::Equal => {
                proof {
                    assert forall|i: int| 0 <= i < s.len() && i != pos implies (#[trigger] s[i]).0 != k by {
                        assert(s[i].0 == keys@[i].kv());
                        assert(key_views(keys@)[i] == keys@[i].kv());
                        assert(key_views(keys@)[pos as int] == keys@[pos as int].kv());
                    }
                    assert(s[pos as int].0 == k);
                }
                keys.remove(pos);
                let v = vals.remove(pos);
                proof {
                    let s2 = node_entries(Node::Leaf { keys: *keys, vals: *vals });
                    assert(s2 =~= s.remove(pos as int));
                    assert(s[pos as int] == (k, v));
                    assert forall|k2: KeyView, v2: Value| #[trigger] s2.contains((k2, v2)) <==> (k2 != k && s.contains((k2, v2))) by {
                        if s2.contains((k2, v2)) {
                            let i = choose|i: int| 0 <= i < s2.len() && s2[i] == (k2, v2);
                            if i < pos {
                                assert(s[i] == s2[i]);
                            } else {
                                assert(s[i + 1] == s2[i]);
                            }
                        }
                        if k2 != k && s.contains((k2, v2)) {
                            let i = choose|i: int| 0 <= i < s.len() && s[i] == (k2, v2);
                            if i < pos {
                                assert(s2[i] == s[i]);
                            } else {
                                assert(i != pos);
                                assert(s2[i - 1] == s[i]);
                            }
                        }
                    }
                    assert(key_views(keys@) =~= key_views(old_keys).remove(pos as int));
                    assert forall|i: int| 0 <= i < keys@.len() implies in_bounds(#[trigger] keys@[i].kv(), lo, hi) by {
                        if i < pos {
                            assert(keys@[i] == old_keys[i]);
                        } else {
                            assert(keys@[i] == old_keys[i + 1]);
                        }
                    }
                }
                return RemoveResult::Found(Some(v));
            },
            _ => {},
        }
    }
    proof {
        assert forall|i: int| 0 <= i < s.len() implies (#[trigger] s[i]).0 != k by {
            assert(s[i].0 == keys@[i].kv());
            if i > pos {
                assert(key_views(keys@)[pos as int] == keys@[pos as int].kv());
                assert(key_views(keys@)[i] == keys@[i].kv());
            }
        }
    }
    RemoveResult::NotFound
}

/// Removal from an internal node, given as its separators and children.
#[verifier::rlimit(60)]
fn internal_remove(keys: &mut Vec<Key>, children: &mut Vec<Node>, key: &Key, Ghost(lo): Ghost<Option<KeyView>>, Ghost(hi): Ghost<Option<KeyView>>) -> (r: RemoveResult)
    requires
        wf_node(Node::Internal { keys: *old(keys), children: *old(children) }, lo, hi),
    ensures
        remove_post(
            Node::Internal { keys: *old(keys), children: *old(children) },
            Node::Internal { keys: *final(keys), children: *final(children) },
            r,
            key.kv(),
            lo,
            hi,
        ),
    decreases *old(children),
{
    proof {
        lemma_key_order();
    }
    let ghost k = key.kv();
    let ghost seps = key_views(keys@);
    let ghost cs = children@;
    let pos = upper_pos(keys, key);
    let ghost clo = child_lo(seps, lo, pos as int);
    let ghost chi = child_hi(seps, hi, pos as int);
    proof {
        assert(wf_node(cs[pos as int], clo, chi));
        if pos > 0 {
            assert(seps[pos - 1] == keys@[pos - 1].kv());
        }
        if pos < keys@.len() {
            assert(seps[pos as int] == keys@[pos as int].kv());
        }
        lemma_children_split(seps, cs, lo, hi, pos as int);
    }
    let ghost pre = children_entries(cs.subrange(0, pos as int));
    let ghost post = children_entries(cs.subrange(pos + 1, cs.len() as int));
    proof {
        if pos > 0 {
            lemma_no_key_outside(pre, lo, Some(seps[pos - 1]), k);
        } else {
            assert(cs.subrange(0, pos as int) =~= Seq::<Node>::empty());
            assert(children_entries(Seq::<Node>::empty()) =~= Seq::<EntryView>::empty());
        }
        if pos < seps.len() {
            lemma_no_key_outside(post, Some(seps[pos as int]), hi, k);
        } else {
            assert(cs.subrange(pos + 1, cs.len() as int) =~= Seq::<Node>::empty());
            assert(children_entries(Seq::<Node>::empty()) =~= Seq::<EntryView>::empty());
        }
    }
    let r = children[pos].remove(key, Ghost(clo), Ghost(chi));
    proof {
        let c2 = children@[pos as int];
        assert(children@ =~= cs.update(pos as int, c2));
        lemma_children_split_exact(cs, pos as int, c2);
        lemma_remove_lift(pre, node_entries(cs[pos as int]), node_entries(c2), post, k);
        assert forall|i: int| 0 <= i < children@.len() implies wf_node(
            #[trigger] children@[i],
            child_lo(seps, lo, i),
            child_hi(seps, hi, i),
        ) by {
            if i != pos {
                assert(children@[i] == cs[i]);
            }
        }
    }
    r
}

impl Node {
    /// Remove a key, return value if found.
    fn remove(&mut self, key: &Key, Ghost(lo): Ghost<Option<KeyView>>, Ghost(hi): Ghost<Option<KeyView>>) -> (r: RemoveResult)
        requires
            wf_node(*old(self), lo, hi),
        ensures
            remove_post(*old(self), *final(self), r, key.kv(), lo, hi),
        decreases *old(self),
    {
        match self {
            Node::Leaf { keys, vals } => leaf_remove(keys, vals, key, Ghost(lo), Ghost(hi)),
            Node::Internal { keys, children } => internal_remove(keys, children, key, Ghost(lo), Ghost(hi)),
        }
    }
}

} // verus!

verus! {

// ─── Scans ───────────────────────────────────────────────────────────────────

/// The entries a list of (key, value) references stands for.
pub open spec fn pairs_view<'a>(out: Seq<(&'a Key, &'a Value)>) -> Seq<EntryView> {
    out.map_values(|p: (&'a Key, &'a Value)| (p.0.kv(), *p.1))
}

/// Entries whose key lies in the closed range [start, end].
pub open spec fn in_key_range(start: KeyView, end: KeyView) -> spec_fn(EntryView) -> bool {
    |e: EntryView| key_le(start, e.0) && key_le(e.0, end)
}

proof fn lemma_pairs_view_push<'a>(out: Seq<(&'a Key, &'a Value)>, p: (&'a Key, &'a Value))
    ensures
        pairs_view(out.push(p)) == pairs_view(out).push((p.0.kv(), *p.1)),
{
    assert(pairs_view(out.push(p)) =~= pairs_view(out).push((p.0.kv(), *p.1)));
}

proof fn lemma_filter_none(s: Seq<EntryView>, pred: spec_fn(EntryView) -> bool)
    requires
        forall|i: int| 0 <= i < s.len() ==> !pred(#[trigger] s[i]),
    ensures
        s.filter(pred) == Seq::<EntryView>::empty(),
    decreases s.len(),
{
    reveal(Seq::filter);
    if s.len() > 0 {
        lemma_filter_none(s.drop_last(), pred);
        assert(!pred(s[s.len() - 1]));
    }
    assert(s.filter(pred) =~= Seq::<EntryView>::empty());
}

proof fn lemma_filter_step(s: Seq<EntryView>, i: int, pred: spec_fn(EntryView) -> bool)
    requires
        0 <= i < s.len(),
    ensures
        s.subrange(0, i + 1).filter(pred) == (if pred(s[i]) {
            s.subrange(0, i).filter(pred).push(s[i])
        } else {
            s.subrange(0, i).filter(pred)
        }),
{
    reveal(Seq::filter);
    assert(s.subrange(0, i + 1).drop_last() =~= s.subrange(0, i));
    assert(s.subrange(0, i + 1).last() == s[i]);
}

impl Node {
    /// Collect all key-value pairs in sorted order.
    #[verifier::loop_isolation(false)]
    fn collect_all<'a>(&'a self, out: &mut Vec<(&'a Key, &'a Value)>)
        requires
            leaf_shapes(*self),
        ensures
            pairs_view(final(out)@) == pairs_view(old(out)@) + node_entries(*self),
        decreases *self,
    {
        match self {
            Node::Leaf { keys, vals } => {
                let n = keys.len();
                let mut i: usize = 0;
                while i < n
                    invariant
                        n == keys@.len(),
                        keys@.len() == vals@.len(),
                        i <= n,
                        pairs_view(out@) == pairs_view(old(out)@) + node_entries(*self).subrange(0, i as int),
                    decreases n - i,
                {
                    proof {
                        lemma_pairs_view_push(out@, (&keys[i as int], &vals[i as int]));
                    }
                    out.push((&keys[i], &vals[i]));
                    i += 1;
                    assert(node_entries(*self).subrange(0, i as int) =~= node_entries(*self).subrange(0, i - 1).push(
                        (keys@[i - 1].kv(), vals@[i - 1]),
                    ));
                }
                assert(node_entries(*self).subrange(0, n as int) =~= node_entries(*self));
            },
            Node::Internal { children, .. } => {
                let n = children.len();
                let mut i: usize = 0;
                assert(children@.subrange(0, 0) =~= Seq::<Node>::empty());
                assert(children_entries(Seq::<Node>::empty()) =~= Seq::<EntryView>::empty());
                while i < n
                    invariant
                        n == children@.len(),
                        i <= n,
                        forall|j: int| 0 <= j < n ==> leaf_shapes(#[trigger] children@[j]),
                        pairs_view(out@) == pairs_view(old(out)@) + children_entries(children@.subrange(0, i as int)),
                    decreases n - i,
                {
                    children[i].collect_all(out);
                    proof {
                        assert(children@.subrange(0, i + 1).drop_last() =~= children@.subrange(0, i as int));
                    }
                    i += 1;
                }
                assert(children@.subrange(0, n as int) =~= children@);
            },
        }
    }
}

/// Every leaf below `n` has as many values as keys.
spec fn leaf_shapes(n: Node) -> bool
    decreases n,
{
    match n {
        Node::Leaf { keys, vals } => keys@.len() == vals@.len(),
        Node::Internal { keys, children } => forall|i: int|
            0 <= i < children@.len() ==> leaf_shapes(#[trigger] children@[i]),
    }
}

proof fn lemma_wf_leaf_shapes(n: Node, lo: Option<KeyView>, hi: Option<KeyView>)
    requires
        wf_node(n, lo, hi),
    ensures
        leaf_shapes(n),
    decreases n,
{
    match n {
        Node::Leaf { .. } => {},
        Node::Internal { keys, children } => {
            let seps = key_views(keys@);
            assert forall|i: int| 0 <= i < children@.len() implies leaf_shapes(#[trigger] children@[i]) by {
                lemma_wf_leaf_shapes(children@[i], child_lo(seps, lo, i), child_hi(seps, hi, i));
            }
        },
    }
}

} // verus!

verus! {

impl Node {
    /// Collect pairs within key range [start, end] inclusive.
    #[verifier::loop_isolation(false)]
    fn collect_range<'a>(&'a self, start: &Key, end: &Key, out: &mut Vec<(&'a Key, &'a Value)>, Ghost(lo): Ghost<Option<KeyView>>, Ghost(hi): Ghost<Option<KeyView>>)
        requires
            wf_node(*self, lo, hi),
        ensures
            pairs_view(final(out)@) == pairs_view(old(out)@) + node_entries(*self).filter(
                in_key_range(start.kv(), end.kv()),
            ),
        decreases *self,
    {
        proof {
            lemma_key_order();
        }
        let ghost pred = in_key_range(start.kv(), end.kv());
        match self {
            Node::Leaf { keys, vals } => {
                let ghost s = node_entries(*self);
                let n = keys.len();
                let mut i: usize = 0;
                proof {
                    reveal(Seq::filter);
                    assert(s.subrange(0, 0) =~= Seq::<EntryView>::empty());
                    assert(pairs_view(out@) =~= pairs_view(old(out)@) + s.subrange(0, 0).filter(pred));
                }
                while i < n
                    invariant
                        n == keys@.len(),
                        i <= n,
                        pairs_view(out@) == pairs_view(old(out)@) + s.subrange(0, i as int).filter(pred),
                    decreases n - i,
                {
                    let above = match compare_keys(&keys[i], start) {
                        KeyOrder::Less => false,
                        _ => true,
                    };
                    let below = match compare_keys(&keys[i], end) {
                        KeyOrder::Greater => false,
                        _ => true,
                    };
                    proof {
                        lemma_filter_step(s, i as int, pred);
                        assert(s[i as int] == (keys@[i as int].kv(), vals@[i as int]));
                        assert(pred(s[i as int]) == (above && below));
                    }
                    if above && below {
                        proof {
                            lemma_pairs_view_push(out@, (&keys[i as int], &vals[i as int]));
                        }
                        out.push((&keys[i], &vals[i]));
                    }
                    i += 1;
                }
                assert(s.subrange(0, n as int) =~= s);
            },
            Node::Internal { keys, children } => {
                let ghost seps = key_views(keys@);
                let ghost cs = children@;
                let n = children.len();
                let mut i: usize = 0;
                proof {
                    reveal(Seq::filter);
                    assert(cs.subrange(0, 0) =~= Seq::<Node>::empty());
                    assert(children_entries(Seq::<Node>::empty()) =~= Seq::<EntryView>::empty());
                    assert(pairs_view(out@) =~= pairs_view(old(out)@) + children_entries(cs.subrange(0, 0)).filter(pred));
                }
                while i < n
                    invariant
                        n == cs.len(),
                        i <= n,
                        pairs_view(out@) == pairs_view(old(out)@) + children_entries(cs.subrange(0, i as int)).filter(pred),
                    decreases n - i,
                {
                    let above_min = if i == 0 {
                        true
                    } else {
                        match compare_keys(&keys[i - 1], end) {
                            KeyOrder::Greater => false,
                            _ => true,
                        }
                    };
                    let below_max = if i >= keys.len() {
                        true
                    } else {
                        match compare_keys(&keys[i], start) {
                            KeyOrder::Less => false,
                            _ => true,
                        }
                    };
                    let ghost c = cs[i as int];
                    let ghost clo = child_lo(seps, lo, i as int);
                    let ghost chi = child_hi(seps, hi, i as int);
                    proof {
                        assert(wf_node(c, clo, chi));
                        assert(cs.subrange(0, i + 1) =~= cs.subrange(0, i as int) + seq![c]);
                        lemma_children_entries_concat(cs.subrange(0, i as int), seq![c]);
                        lemma_children_entries_single(c);
                        Seq::filter_distributes_over_add(children_entries(cs.subrange(0, i as int)), node_entries(c), pred);
                    }
                    if above_min && below_max {
                        children[i].collect_range(start, end, out, Ghost(clo), Ghost(chi));
                    } else {
                        proof {
                            lemma_wf_entries(c, clo, chi);
                            let e = node_entries(c);
                            assert forall|j: int| 0 <= j < e.len() implies !pred(#[trigger] e[j]) by {
                                assert(in_bounds(e[j].0, clo, chi));
                                if !above_min {
                                    assert(seps[i - 1] == keys@[i - 1].kv());
                                    assert(key_lt(end.kv(), seps[i - 1]));
                                } else {
                                    assert(seps[i as int] == keys@[i as int].kv());
                                    assert(key_lt(seps[i as int], start.kv()));
                                }
                            }
                            lemma_filter_none(e, pred);
                            assert(pairs_view(out@) =~= pairs_view(old(out)@) + children_entries(cs.subrange(0, i + 1)).filter(pred));
                        }
                    }
                    i += 1;
                }
                assert(cs.subrange(0, n as int) =~= cs);
            },
        }
    }
}

} // verus!

verus! {

// ─── Map view of sorted entries ──────────────────────────────────────────────

/// The map from keys to values that a run of entries describes.
pub open spec fn entries_map(s: Seq<EntryView>) -> Map<KeyView, Value> {
    Map::new(|k: KeyView| has_key(s, k), |k: KeyView| s[entry_index(s, k)].1)
}

/// Position of an entry with key `k` in `s`, when there is one.
pub open spec fn entry_index(s: Seq<EntryView>, k: KeyView) -> int {
    choose|i: int| 0 <= i < s.len() && (#[trigger] s[i]).0 == k
}

proof fn lemma_sorted_unique(s: Seq<EntryView>, i: int, j: int)
    requires
        entries_sorted(s),
        0 <= i < s.len(),
        0 <= j < s.len(),
        s[i].0 == s[j].0,
    ensures
        i == j,
{
    lemma_key_order();
    if i < j {
        assert(key_lt(s[i].0, s[j].0));
    } else if j < i {
        assert(key_lt(s[j].0, s[i].0));
    }
}

/// In sorted entries, the map holds `v` at `k` exactly when the entry (k, v) is present.
proof fn lemma_entries_map_value(s: Seq<EntryView>, k: KeyView, v: Value)
    requires
        entries_sorted(s),
    ensures
        (entries_map(s).contains_key(k) && entries_map(s)[k] == v) <==> s.contains((k, v)),
{
    if s.contains((k, v)) {
        let j = choose|j: int| 0 <= j < s.len() && s[j] == (k, v);
        assert(has_key(s, k)) by {
            assert(s[j].0 == k);
        }
        assert(entries_map(s).contains_key(k));
        let i = entry_index(s, k);
        assert(entries_map(s)[k] == s[i].1);
        lemma_sorted_unique(s, i, j);
    }
    if entries_map(s).contains_key(k) && entries_map(s)[k] == v {
        assert(has_key(s, k));
        let i = entry_index(s, k);
        assert(entries_map(s)[k] == s[i].1);
        assert(s[i] == (k, v));
    }
}

proof fn lemma_entries_map_upsert(s: Seq<EntryView>, s2: Seq<EntryView>, k: KeyView, v: Value)
    requires
        entries_sorted(s),
        entries_sorted(s2),
        upserted(s, s2, k, v),
    ensures
        entries_map(s2) == entries_map(s).insert(k, v),
{
    let m = entries_map(s);
    let m2 = entries_map(s2);
    assert forall|k2: KeyView| #[trigger] m2.contains_key(k2) <==> m.insert(k, v).contains_key(k2) by {
        if has_key(s2, k2) {
            let i = choose|i: int| 0 <= i < s2.len() && (#[trigger] s2[i]).0 == k2;
            assert(s2.contains((k2, s2[i].1)));
            if k2 != k {
                assert(s.contains((k2, s2[i].1)));
                let j = choose|j: int| 0 <= j < s.len() && s[j] == (k2, s2[i].1);
                assert(s[j].0 == k2);
            }
        }
        if k2 == k {
            assert(s2.contains((k, v)));
            let j = choose|j: int| 0 <= j < s2.len() && s2[j] == (k, v);
            assert(s2[j].0 == k);
        } else if has_key(s, k2) {
            let i = choose|i: int| 0 <= i < s.len() && (#[trigger] s[i]).0 == k2;
            assert(s.contains((k2, s[i].1)));
            assert(s2.contains((k2, s[i].1)));
            let j = choose|j: int| 0 <= j < s2.len() && s2[j] == (k2, s[i].1);
            assert(s2[j].0 == k2);
        }
    }
    assert forall|k2: KeyView| #[trigger] m2.contains_key(k2) implies m2[k2] == m.insert(k, v)[k2] by {
        let w = m2[k2];
        lemma_entries_map_value(s2, k2, w);
        assert(s2.contains((k2, w)));
        if k2 != k {
            assert(s.contains((k2, w)));
            lemma_entries_map_value(s, k2, w);
        }
    }
    assert(m2 =~= m.insert(k, v));
}

proof fn lemma_entries_map_remove(s: Seq<EntryView>, s2: Seq<EntryView>, k: KeyView)
    requires
        entries_sorted(s),
        entries_sorted(s2),
        without_key(s, s2, k),
    ensures
        entries_map(s2) == entries_map(s).remove(k),
{
    let m = entries_map(s);
    let m2 = entries_map(s2);
    assert forall|k2: KeyView| #[trigger] m2.contains_key(k2) <==> m.remove(k).contains_key(k2) by {
        if has_key(s2, k2) {
            let i = choose|i: int| 0 <= i < s2.len() && (#[trigger] s2[i]).0 == k2;
            assert(s2.contains((k2, s2[i].1)));
            assert(s.contains((k2, s2[i].1)));
            let j = choose|j: int| 0 <= j < s.len() && s[j] == (k2, s2[i].1);
            assert(s[j].0 == k2);
        }
        if k2 != k && has_key(s, k2) {
            let i = choose|i: int| 0 <= i < s.len() && (#[trigger] s[i]).0 == k2;
            assert(s.contains((k2, s[i].1)));
            assert(s2.contains((k2, s[i].1)));
            let j = choose|j: int| 0 <= j < s2.len() && s2[j] == (k2, s[i].1);
            assert(s2[j].0 == k2);
        }
    }
    assert forall|k2: KeyView| #[trigger] m2.contains_key(k2) implies m2[k2] == m.remove(k)[k2] by {
        let w = m2[k2];
        lemma_entries_map_value(s2, k2, w);
        assert(s.contains((k2, w)));
        lemma_entries_map_value(s, k2, w);
    }
    assert(m2 =~= m.remove(k));
}

/// Sorted entries describe a finite map with one key per entry.
proof fn lemma_entries_map_len(s: Seq<EntryView>)
    requires
        entries_sorted(s),
    ensures
        entries_map(s).dom().finite(),
        entries_map(s).dom().len() == s.len(),
    decreases s.len(),
{
    if s.len() == 0 {
        assert(entries_map(s).dom() =~= Set::<KeyView>::empty());
    } else {
        let t = s.drop_last();
        assert(entries_sorted(t)) by {
            assert forall|i: int, j: int| 0 <= i < j < t.len() implies key_lt(#[trigger] t[i].0, #[trigger] t[j].0) by {
                assert(t[i] == s[i] && t[j] == s[j]);
            }
        }
        lemma_entries_map_len(t);
        let last = s.last();
        assert(entries_map(s).dom() =~= entries_map(t).dom().insert(last.0)) by {
            assert forall|k: KeyView| #[trigger] entries_map(s).dom().contains(k) <==> entries_map(t).dom().insert(last.0).contains(k) by {
                if has_key(s, k) && k != last.0 {
                    let i = choose|i: int| 0 <= i < s.len() && (#[trigger] s[i]).0 == k;
                    assert(i != s.len() - 1);
                    assert(t[i].0 == k);
                }
                if has_key(t, k) {
                    let i = choose|i: int| 0 <= i < t.len() && (#[trigger] t[i]).0 == k;
                    assert(s[i].0 == k);
                }
                if k == last.0 {
                    assert(s[s.len() - 1].0 == k);
                }
            }
        }
        assert(!entries_map(t).dom().contains(last.0)) by {
            if has_key(t, last.0) {
                let i = choose|i: int| 0 <= i < t.len() && (#[trigger] t[i]).0 == last.0;
                assert(s[i].0 == s[s.len() - 1].0);
                lemma_sorted_unique(s, i, s.len() - 1);
            }
        }
    }
}

} // verus!

verus! {

// ─── Public tree ─────────────────────────────────────────────────────────────

impl Key {
    pub fn new(parent_ino: u64, name: &str) -> (r: Self)
        ensures
            r.kv() == (parent_ino, name.spec_bytes()),
    {
        Key(parent_ino, name.to_owned())
    }

    /// Sentinel key: the smallest possible key for a given parent directory.
    fn dir_start(parent_ino: u64) -> (r: Self)
        ensures
            r.kv() == dir_start_view(parent_ino),
    {
        Key(parent_ino, String::new())
    }
}

/// The first key of directory `parent_ino`'s range: an empty name.
pub open spec fn dir_start_view(parent_ino: u64) -> KeyView {
    (parent_ino, Seq::empty())
}

/// The entries of directory `parent_ino`: those whose key names it as parent.
pub open spec fn in_dir(parent_ino: u64) -> spec_fn(EntryView) -> bool {
    |e: EntryView| e.0.0 == parent_ino
}

/// Filtering by a narrower test after a wider one is filtering by the
/// narrower one alone.
proof fn lemma_filter_narrow(s: Seq<EntryView>, wide: spec_fn(EntryView) -> bool, narrow: spec_fn(EntryView) -> bool)
    requires
        forall|e: EntryView| #[trigger] narrow(e) ==> wide(e),
    ensures
        s.filter(wide).filter(narrow) == s.filter(narrow),
    decreases s.len(),
{
    reveal(Seq::filter);
    if s.len() > 0 {
        lemma_filter_narrow(s.drop_last(), wide, narrow);
        let t = s.drop_last().filter(wide);
        if wide(s.last()) {
            assert(t.push(s.last()).drop_last() =~= t);
        }
    }
}

proof fn lemma_filter_all(s: Seq<EntryView>, all: spec_fn(EntryView) -> bool)
    requires
        forall|e: EntryView| #[trigger] all(e),
    ensures
        s.filter(all) == s,
    decreases s.len(),
{
    reveal(Seq::filter);
    if s.len() > 0 {
        lemma_filter_all(s.drop_last(), all);
        assert(s.drop_last().push(s.last()) =~= s);
    }
}

proof fn lemma_empty_name_first(b: Seq<u8>)
    ensures
        b.len() == 0 || bytes_lt(Seq::empty(), b),
{
}

pub struct BPlusTree {
    root: Node,
    size: usize,
}

impl View for BPlusTree {
    type V = Map<KeyView, Value>;

    closed spec fn view(&self) -> Map<KeyView, Value> {
        entries_map(node_entries(self.root))
    }
}

impl BPlusTree {
    /// The entries of the tree, in key order.
    pub closed spec fn entries(&self) -> Seq<EntryView> {
        node_entries(self.root)
    }

    /// The tree's structural invariant.
    pub closed spec fn wf(&self) -> bool {
        &&& wf_node(self.root, None, None)
        &&& self.size == node_entries(self.root).len()
    }

    /// A well-formed tree lists its entries in strictly increasing key
    /// order, one per key of its map, and the map is exactly those entries.
    pub proof fn lemma_entries(&self)
        requires
            self.wf(),
        ensures
            entries_sorted(self.entries()),
            self@ == entries_map(self.entries()),
            self@.dom().finite(),
            self@.len() == self.entries().len(),
            forall|k: KeyView, v: Value|
                #[trigger] self.entries().contains((k, v)) <==> (self@.contains_key(k) && self@[k] == v),
    {
        lemma_wf_entries(self.root, None, None);
        lemma_entries_map_len(self.entries());
        assert forall|k: KeyView, v: Value|
            #[trigger] self.entries().contains((k, v)) <==> (self@.contains_key(k) && self@[k] == v) by {
            lemma_entries_map_value(self.entries(), k, v);
        }
    }

    pub fn new() -> (r: Self)
        ensures
            r.wf(),
            r@ == Map::<KeyView, Value>::empty(),
    {
        let r = Self { root: Node::new_leaf(), size: 0 };
        assert(r@ =~= Map::<KeyView, Value>::empty());
        r
    }

    pub fn len(&self) -> (r: usize)
        requires
            self.wf(),
        ensures
            r == self@.len(),
    {
        proof {
            self.lemma_entries();
        }
        self.size
    }

    pub fn is_empty(&self) -> (r: bool)
        requires
            self.wf(),
        ensures
            r == (self@.len() == 0),
    {
        proof {
            self.lemma_entries();
        }
        self.size == 0
    }

    /// Insert (or update) a file/directory entry under `parent_ino`.
    pub fn insert(&mut self, parent_ino: u64, name: &str, value: Value)
        requires
            old(self).wf(),
            old(self)@.len() < usize::MAX,
        ensures
            final(self).wf(),
            final(self)@ == old(self)@.insert((parent_ino, name.spec_bytes()), value),
    {
        proof {
            self.lemma_entries();
            lemma_key_order();
        }
        let ghost s = node_entries(self.root);
        let key = Key::new(parent_ino, name);
        let ghost k = key.kv();
        let already_exists = self.root.get(&key, Ghost(None), Ghost(None)).is_some();
        match self.root.insert(key, value, Ghost(None), Ghost(None)) {
            InsertResult::Fits => {},
            InsertResult::Split(promoted, right) => {
                let ghost pk = promoted.kv();
                let ghost left = self.root;
                let mut old_root = Node::new_leaf();
                std::mem::swap(&mut self.root, &mut old_root);
                self.root = Node::new_internal(vec![promoted], vec![old_root, right]);
                proof {
                    let cs = seq![left, right];
                    assert(cs.drop_last() =~= seq![left]);
                    lemma_children_entries_single(left);
                    assert(node_entries(self.root) == node_entries(left) + node_entries(right));
                    let seps = key_views(seq![promoted]);
                    assert(seps =~= seq![pk]);
                    assert(children_ok(seps, cs, None, None)) by {
                        assert forall|i: int| 0 <= i < cs.len() implies wf_node(
                            #[trigger] cs[i],
                            child_lo(seps, None, i),
                            child_hi(seps, None, i),
                        ) by {
                            if i == 0 {
                                assert(cs[i] == left);
                            } else {
                                assert(cs[i] == right);
                            }
                        }
                    }
                }
            },
        }
        proof {
            let s2 = node_entries(self.root);
            lemma_wf_entries(self.root, None, None);
            lemma_entries_map_upsert(s, s2, k, value);
            assert(already_exists == has_key(s, k));
        }
        if !already_exists {
            self.size += 1;
        }
    }

    /// Remove an entry by (parent_ino, name), returning its value if found.
    pub fn remove(&mut self, parent_ino: u64, name: &str) -> (r: Option<Value>)
        requires
            old(self).wf(),
        ensures
            final(self).wf(),
            final(self)@ == old(self)@.remove((parent_ino, name.spec_bytes())),
            r == old(self)@.get((parent_ino, name.spec_bytes())),
    {
        proof {
            self.lemma_entries();
        }
        let ghost s = node_entries(self.root);
        let key = Key::new(parent_ino, name);
        let ghost k = key.kv();
        let res = self.root.remove(&key, Ghost(None), Ghost(None));
        proof {
            let s2 = node_entries(self.root);
            lemma_wf_entries(self.root, None, None);
            lemma_entries_map_remove(s, s2, k);
        }
        match res {
            RemoveResult::Found(val) => {
                proof {
                    if let Some(v) = val {
                        lemma_entries_map_value(s, k, v);
                    }
                }
                if val.is_some() {
                    self.size -= 1;
                }
                val
            },
            RemoveResult::NotFound => None,
        }
    }

    /// Look up a single entry by (parent_ino, name).
    pub fn get(&self, parent_ino: u64, name: &str) -> (r: Option<&Value>)
        requires
            self.wf(),
        ensures
            match r {
                Some(v) => self@.contains_key((parent_ino, name.spec_bytes())) && self@[(parent_ino, name.spec_bytes())] == *v,
                None => !self@.contains_key((parent_ino, name.spec_bytes())),
            },
    {
        proof {
            self.lemma_entries();
        }
        let key = Key::new(parent_ino, name);
        let r = self.root.get(&key, Ghost(None), Ghost(None));
        proof {
            if let Some(v) = r {
                lemma_entries_map_value(self.entries(), key.kv(), *v);
            }
        }
        r
    }

    /// List all direct children of a directory: every entry whose key
    /// names it as parent, in key order (so by name).
    pub fn list_dir(&self, parent_ino: u64) -> (r: Vec<(&Key, &Value)>)
        requires
            self.wf(),
        ensures
            pairs_view(r@) == self.entries().filter(in_dir(parent_ino)),
    {
        let mut scanned: Vec<(&Key, &Value)> = Vec::new();
        let ghost mut wide: spec_fn(EntryView) -> bool = |e: EntryView| true;
        if parent_ino < u64::MAX {
            let start = Key::dir_start(parent_ino);
            let end = Key::dir_start(parent_ino + 1);
            self.root.collect_range(&start, &end, &mut scanned, Ghost(None), Ghost(None));
            proof {
                wide = in_key_range(start.kv(), end.kv());
                assert(pairs_view(Seq::<(&Key, &Value)>::empty()) =~= Seq::<EntryView>::empty());
                assert(pairs_view(scanned@) =~= self.entries().filter(wide));
                assert forall|e: EntryView| #[trigger] (in_dir(parent_ino))(e) implies wide(e) by {
                    lemma_empty_name_first(e.0.1);
                    if e.0.1.len() == 0 {
                        assert(e.0.1 =~= Seq::<u8>::empty());
                    }
                    assert(key_le(start.kv(), e.0));
                    assert(key_le(e.0, end.kv()));
                }
            }
        } else {
            proof {
                lemma_wf_leaf_shapes(self.root, None, None);
            }
            self.root.collect_all(&mut scanned);
            proof {
                wide = |e: EntryView| true;
                assert(pairs_view(Seq::<(&Key, &Value)>::empty()) =~= Seq::<EntryView>::empty());
                assert(pairs_view(scanned@) =~= self.entries());
                lemma_filter_all(self.entries(), wide);
            }
        }
        proof {
            lemma_filter_narrow(self.entries(), wide, in_dir(parent_ino));
        }
        let ghost sv = pairs_view(scanned@);
        let mut out: Vec<(&Key, &Value)> = Vec::new();
        let mut i: usize = 0;
        proof {
            lemma_filter_empty(sv, in_dir(parent_ino));
            assert(pairs_view(out@) =~= Seq::<EntryView>::empty());
        }
        while i < scanned.len()
            invariant
                i <= scanned@.len(),
                sv == pairs_view(scanned@),
                pairs_view(out@) == sv.subrange(0, i as int).filter(in_dir(parent_ino)),
            decreases scanned@.len() - i,
        {
            let item = scanned[i];
            proof {
                lemma_filter_step(sv, i as int, in_dir(parent_ino));
                assert(sv[i as int] == (item.0.kv(), *item.1));
            }
            if item.0.0 == parent_ino {
                proof {
                    lemma_pairs_view_push(out@, item);
                }
                out.push(item);
            }
            i = i + 1;
        }
        proof {
            assert(sv.subrange(0, sv.len() as int) =~= sv);
        }
        out
    }

    /// Collect every entry in the tree in sorted order.
    pub fn list_all(&self) -> (r: Vec<(&Key, &Value)>)
        requires
            self.wf(),
        ensures
            pairs_view(r@) == self.entries(),
    {
        let mut out: Vec<(&Key, &Value)> = Vec::new();
        proof {
            lemma_wf_leaf_shapes(self.root, None, None);
        }
        self.root.collect_all(&mut out);
        assert(pairs_view(Seq::<(&Key, &Value)>::empty()) =~= Seq::<EntryView>::empty());
        assert(pairs_view(out@) =~= self.entries());
        out
    }

    /// Range scan by raw keys: the entries from `start` to `end` inclusive.
    pub fn range_keys(&self, start: &Key, end: &Key) -> (r: Vec<(&Key, &Value)>)
        requires
            self.wf(),
        ensures
            pairs_view(r@) == self.entries().filter(in_key_range(start.kv(), end.kv())),
    {
        let mut out: Vec<(&Key, &Value)> = Vec::new();
        self.root.collect_range(start, end, &mut out, Ghost(None), Ghost(None));
        assert(pairs_view(Seq::<(&Key, &Value)>::empty()) =~= Seq::<EntryView>::empty());
        assert(pairs_view(out@) =~= self.entries().filter(in_key_range(start.kv(), end.kv())));
        out
    }
}

} // verus!

verus! {

impl PartialEq for Key {
    fn eq(&self, other: &Self) -> (r: bool) {
        self.0 == other.0 && self.1 == other.1
    }
}

impl PartialEqSpecImpl for Key {
    open spec fn obeys_eq_spec() -> bool {
        true
    }

    open spec fn eq_spec(&self, other: &Key) -> bool {
        self.0 == other.0 && self.1@ == other.1@
    }
}

impl Eq for Key {}

/// The order of two keys, as `partial_cmp` reports it.
pub open spec fn key_order(a: KeyView, b: KeyView) -> Option<Ordering> {
    if key_lt(a, b) {
        Some(Ordering::Less)
    } else if a == b {
        Some(Ordering::Equal)
    } else {
        Some(Ordering::Greater)
    }
}

impl PartialOrd for Key {
    fn partial_cmp(&self, other: &Self) -> (r: Option<Ordering>) {
        proof {
            lemma_key_order();
        }
        match compare_keys(self, other) {
            KeyOrder::Less => Some(Ordering::Less),
            KeyOrder::Equal => Some(Ordering::Equal),
            KeyOrder::Greater => Some(Ordering::Greater),
        }
    }
}

impl PartialOrdSpecImpl for Key {
    open spec fn obeys_partial_cmp_spec() -> bool {
        true
    }

    open spec fn partial_cmp_spec(&self, other: &Key) -> Option<Ordering> {
        key_order(self.kv(), other.kv())
    }
}

impl Default for BPlusTree {
    fn default() -> (r: Self)
        ensures
            r.wf(),
            r@ == Map::<KeyView, Value>::empty(),
    {
        Self::new()
    }
}

} // verus!
