//! Trie nodes: path-compressed edges, values, ordered children and digests.
use crate::digest::{append_digest, empty_digest, sha256, sha256_of, value_digest, zero_digest};
use crate::mpt::MPT;
use vstd::prelude::*;
use vstd::slice::{slice_subrange, slice_to_vec};

verus! {

/// Why an insertion was refused.
#[derive(Debug, PartialEq, Eq, Structural, Clone, Copy)]
pub enum TrieError {
    /// The key already holds a value.
    KeyExists,
    /// The value could not be encoded for hashing (bincode does not fail on a
    /// byte vector, so `insert` never reports it).
    EncodingFailure,
}

/// One node of the trie. `key` is the edge label that this node owns below its
/// parent; `children` is a vector kept strictly ordered by the first byte of
/// each child's label (see `sorted_children`), which serves as the ordered map
/// from first byte to child and lets recursion descend structurally.
pub struct MPTNode {
    pub key: Vec<u8>,
    pub value: Option<Vec<u8>>,
    /// The digest of the value's encoding, meaningful while `value` is present.
    pub value_hash: [u8; 32],
    pub children: Vec<MPTNode>,
    pub hash: [u8; 32],
}

pub open spec fn is_empty_node(n: MPTNode) -> bool {
    n.value is None && n.children@.len() == 0
}

/// The children's digests, concatenated in order.
pub open spec fn children_hashes(cs: Seq<MPTNode>) -> Seq<u8>
    decreases cs.len(),
{
    if cs.len() == 0 {
        seq![]
    } else {
        children_hashes(cs.drop_last()) + cs.last().hash@
    }
}

/// What a non-empty node's digest is taken over: the digest of its label, the
/// digest of its value if any, and its children's digests in order.
pub open spec fn digest_input(n: MPTNode) -> Seq<u8> {
    sha256_of(n.key@) + (if n.value is Some {
        n.value_hash@
    } else {
        seq![]
    }) + children_hashes(n.children@)
}

pub open spec fn node_digest(n: MPTNode) -> Seq<u8> {
    if is_empty_node(n) {
        empty_digest()
    } else {
        sha256_of(digest_input(n))
    }
}

/// The position of the child whose label starts with `b`, or -1.
pub open spec fn child_pos(cs: Seq<MPTNode>, b: u8) -> int {
    if exists|i: int| 0 <= i < cs.len() && (#[trigger] cs[i]).key@[0] == b {
        choose|i: int| 0 <= i < cs.len() && (#[trigger] cs[i]).key@[0] == b
    } else {
        -1
    }
}

pub open spec fn starts_with(k: Seq<u8>, p: Seq<u8>) -> bool {
    p.len() <= k.len() && k.subrange(0, p.len() as int) == p
}

/// The value stored under `k`, where `k` is read from this node's label on.
pub open spec fn lookup(n: MPTNode, k: Seq<u8>) -> Option<Seq<u8>>
    decreases n,
{
    let m = n.key@.len();
    if !starts_with(k, n.key@) {
        None
    } else if k.len() == m {
        match n.value {
            Some(v) => Some(v@),
            None => None,
        }
    } else {
        let rest = k.subrange(m as int, k.len() as int);
        let i = child_pos(n.children@, rest[0]);
        if 0 <= i < n.children@.len() {
            lookup(n.children@[i], rest)
        } else {
            None
        }
    }
}

pub open spec fn sorted_children(cs: Seq<MPTNode>) -> bool {
    &&& forall|i: int| 0 <= i < cs.len() ==> (#[trigger] cs[i]).key@.len() > 0
    &&& forall|i: int, j: int|
        0 <= i < j < cs.len() ==> (#[trigger] cs[i]).key@[0] < (#[trigger] cs[j]).key@[0]
}

/// A node either holds a value, or branches in two or more ways, or is the
/// empty node with an empty label.
pub open spec fn compressed(n: MPTNode) -> bool {
    n.value is Some || n.children@.len() >= 2 || (is_empty_node(n) && n.key@.len() == 0)
}

/// Every node of the subtree is compressed, has ordered children, and holds
/// the right value digest and node digest.
pub open spec fn wf(n: MPTNode) -> bool
    decreases n,
{
    &&& compressed(n)
    &&& (n.value matches Some(v) ==> n.value_hash@ == value_digest(v@))
    &&& n.hash@ == node_digest(n)
    &&& sorted_children(n.children@)
    &&& forall|i: int| 0 <= i < n.children@.len() ==> wf(#[trigger] n.children@[i])
}


/// The subtree below `a` is the subtree below `b` reached through `p`.
pub proof fn lemma_lookup_prefix(a: MPTNode, b: MPTNode, p: Seq<u8>)
    requires
        a.key@ == p + b.key@,
        a.value == b.value,
        a.children@ == b.children@,
    ensures
        forall|k: Seq<u8>| #[trigger]
            lookup(a, k) == if starts_with(k, p) {
                lookup(b, k.subrange(p.len() as int, k.len() as int))
            } else {
                None
            },
{
    assert forall|k: Seq<u8>| #[trigger]
        lookup(a, k) == if starts_with(k, p) {
            lookup(b, k.subrange(p.len() as int, k.len() as int))
        } else {
            None
        } by {
        let pl = p.len() as int;
        let am = a.key@.len() as int;
        if starts_with(k, p) {
            let k2 = k.subrange(pl, k.len() as int);
            if starts_with(k, a.key@) {
                assert(k2.subrange(0, b.key@.len() as int) =~= k.subrange(pl, am));
                assert(k.subrange(pl, am) =~= k.subrange(0, am).subrange(pl, am));
                assert(a.key@.subrange(pl, am) =~= b.key@);
                assert(starts_with(k2, b.key@));
                if k.len() > am {
                    assert(k.subrange(am, k.len() as int) =~= k2.subrange(
                        b.key@.len() as int,
                        k2.len() as int,
                    ));
                }
            } else if starts_with(k2, b.key@) {
                assert(k.subrange(0, am) =~= p + k2.subrange(0, b.key@.len() as int));
            }
        } else if starts_with(k, a.key@) {
            assert(k.subrange(0, pl) =~= a.key@.subrange(0, pl));
            assert(a.key@.subrange(0, pl) =~= p);
        }
    }
}

/// In ordered children, the child that starts with a given byte is found at its position.
pub proof fn lemma_child_pos(cs: Seq<MPTNode>, b: u8, i: int)
    requires
        sorted_children(cs),
        0 <= i < cs.len(),
        cs[i].key@[0] == b,
    ensures
        child_pos(cs, b) == i,
{
    let c = child_pos(cs, b);
    assert(0 <= c < cs.len() && cs[c].key@[0] == b);
    if c < i {
        assert(cs[c].key@[0] < cs[i].key@[0]);
    } else if c > i {
        assert(cs[i].key@[0] < cs[c].key@[0]);
    }
}

/// A node without children holds its value under its own label and nothing else.
pub proof fn lemma_lookup_leaf(n: MPTNode)
    requires
        n.children@.len() == 0,
    ensures
        forall|k: Seq<u8>| #[trigger]
            lookup(n, k) == if k == n.key@ {
                match n.value {
                    Some(v) => Some(v@),
                    None => None,
                }
            } else {
                None
            },
{
    assert forall|k: Seq<u8>| #[trigger]
        lookup(n, k) == if k == n.key@ {
            match n.value {
                Some(v) => Some(v@),
                None => None,
            }
        } else {
            None
        } by {
        if starts_with(k, n.key@) && k.len() == n.key@.len() {
            assert(k =~= n.key@);
        }
        if k == n.key@ {
            assert(k.subrange(0, k.len() as int) =~= k);
        }
    }
}

/// Two keys that start alike are equal exactly when their rests are.
pub proof fn lemma_rest_eq(k: Seq<u8>, key: Seq<u8>, m: int)
    requires
        0 <= m <= k.len(),
        m <= key.len(),
        k.subrange(0, m) == key.subrange(0, m),
    ensures
        (k == key) <==> (k.subrange(m, k.len() as int) == key.subrange(m, key.len() as int)),
{
    if k.subrange(m, k.len() as int) == key.subrange(m, key.len() as int) {
        assert(k =~= k.subrange(0, m) + k.subrange(m, k.len() as int));
        assert(key =~= key.subrange(0, m) + key.subrange(m, key.len() as int));
    }
}


/// Ordered children with the same first bytes place every byte alike.
pub proof fn lemma_child_pos_same(cs: Seq<MPTNode>, ds: Seq<MPTNode>, b: u8)
    requires
        sorted_children(cs),
        sorted_children(ds),
        cs.len() == ds.len(),
        forall|j: int| 0 <= j < cs.len() ==> (#[trigger] cs[j]).key@[0] == ds[j].key@[0],
    ensures
        child_pos(cs, b) == child_pos(ds, b),
{
    let c = child_pos(cs, b);
    if 0 <= c < cs.len() {
        assert(cs[c].key@[0] == b);
        lemma_child_pos(ds, b, c);
    } else {
        let d = child_pos(ds, b);
        if 0 <= d < ds.len() {
            assert(ds[d].key@[0] == b);
            lemma_child_pos(cs, b, d);
        }
    }
}

/// Adding a child with a new first byte keeps the others where lookups find them.
pub proof fn lemma_child_pos_insert(cs: Seq<MPTNode>, p: int, leaf: MPTNode, x: u8)
    requires
        sorted_children(cs),
        sorted_children(cs.insert(p, leaf)),
        0 <= p <= cs.len(),
        x != leaf.key@[0],
    ensures
        child_pos(cs, x) == -1 ==> child_pos(cs.insert(p, leaf), x) == -1,
        child_pos(cs, x) != -1 ==> {
            let c = child_pos(cs, x);
            let d = child_pos(cs.insert(p, leaf), x);
            0 <= c < cs.len() && 0 <= d < cs.len() + 1 && cs.insert(p, leaf)[d] == cs[c]
        },
{
    let ns = cs.insert(p, leaf);
    let c = child_pos(cs, x);
    if 0 <= c < cs.len() {
        assert(cs[c].key@[0] == x);
        if c < p {
            assert(ns[c] == cs[c]);
            lemma_child_pos(ns, x, c);
        } else {
            assert(ns[c + 1] == cs[c]);
            lemma_child_pos(ns, x, c + 1);
        }
    } else {
        let d = child_pos(ns, x);
        if 0 <= d < ns.len() {
            assert(ns[d].key@[0] == x);
            if d < p {
                assert(ns[d] == cs[d]);
                lemma_child_pos(cs, x, d);
            } else if d > p {
                assert(ns[d] == cs[d - 1]);
                lemma_child_pos(cs, x, d - 1);
            }
        }
    }
}


/// Dropping the child that held nothing but `key` removes `key` and nothing else.
pub proof fn lemma_drop_child(o: MPTNode, t: MPTNode, i: int, key: Seq<u8>)
    requires
        sorted_children(o.children@),
        0 <= i < o.children@.len(),
        t.key == o.key,
        t.value == o.value,
        t.children@ == o.children@.remove(i),
        starts_with(key, o.key@),
        key.len() > o.key@.len(),
        key[o.key@.len() as int] == o.children@[i].key@[0],
        forall|rk: Seq<u8>|
            rk != key.subrange(o.key@.len() as int, key.len() as int) ==> #[trigger] lookup(
                o.children@[i],
                rk,
            ) is None,
    ensures
        sorted_children(t.children@),
        forall|k: Seq<u8>| #[trigger]
            lookup(t, k) == if k == key {
                None
            } else {
                lookup(o, k)
            },
{
    let cs = o.children@;
    let ns = t.children@;
    let m = o.key@.len() as int;
    let b = cs[i].key@[0];
    assert(ns.insert(i, cs[i]) =~= cs);
    assert(sorted_children(ns)) by {
        assert forall|x: int, y: int| 0 <= x < y < ns.len() implies (#[trigger] ns[x]).key@[0]
            < (#[trigger] ns[y]).key@[0] by {
            if x >= i {
                assert(ns[x] == cs[x + 1]);
            }
            if y >= i {
                assert(ns[y] == cs[y + 1]);
            }
        }
        assert forall|x: int| 0 <= x < ns.len() implies (#[trigger] ns[x]).key@.len() > 0 by {
            if x >= i {
                assert(ns[x] == cs[x + 1]);
            }
        }
    }
    assert forall|k: Seq<u8>| #[trigger]
        lookup(t, k) == if k == key {
            None
        } else {
            lookup(o, k)
        } by {
        if starts_with(k, o.key@) && k.len() > m {
            let rk = k.subrange(m, k.len() as int);
            lemma_rest_eq(k, key, m);
            if rk[0] == b {
                lemma_child_pos(cs, b, i);
                assert(lookup(o, k) == lookup(cs[i], rk));
                if 0 <= child_pos(ns, b) < ns.len() {
                    let d = child_pos(ns, b);
                    assert(ns[d].key@[0] == b);
                    if d < i {
                        assert(ns[d] == cs[d]);
                        assert(cs[d].key@[0] < cs[i].key@[0]);
                    } else {
                        assert(ns[d] == cs[d + 1]);
                        assert(cs[i].key@[0] < cs[d + 1].key@[0]);
                    }
                }
            } else {
                lemma_child_pos_insert(ns, i, cs[i], rk[0]);
                let c = child_pos(cs, rk[0]);
                if 0 <= c < cs.len() {
                    assert(cs[c].key@[0] == rk[0]);
                    assert(0 <= child_pos(ns, rk[0]) < ns.len());
                }
            }
        } else if starts_with(k, o.key@) && k.len() == m {
            assert(k != key);
        } else if !starts_with(k, o.key@) {
            assert(k != key);
        }
    }
}

impl MPTNode {
    /// The position of the child whose label starts with `b`.
    fn find_child(&self, b: u8) -> (r: Option<usize>)
        requires
            sorted_children(self.children@),
        ensures
            match r {
                Some(i) => i < self.children@.len() && child_pos(self.children@, b) == i,
                None => child_pos(self.children@, b) == -1,
            },
    {
        let mut i: usize = 0;
        while i < self.children.len()
            invariant
                i <= self.children@.len(),
                sorted_children(self.children@),
                forall|j: int| 0 <= j < i ==> (#[trigger] self.children@[j]).key@[0] != b,
            decreases self.children@.len() - i,
        {
            assert(self.children@[i as int].key@.len() > 0);
            if self.children[i].key[0] == b {
                assert(self.children@[i as int].key@[0] == b);
                let ghost c = child_pos(self.children@, b);
                assert(0 <= c < self.children@.len() && self.children@[c].key@[0] == b);
                assert(c == i) by {
                    if c < i {
                    } else if c > i {
                        assert(self.children@[i as int].key@[0] < self.children@[c].key@[0]);
                    }
                }
                return Some(i);
            }
            i = i + 1;
        }
        None
    }


    /// A leaf: `key` as its label, `value` stored, no children.
    pub fn new(key: Vec<u8>, value: Vec<u8>, value_hash: [u8; 32]) -> (r: MPTNode)
        requires
            value_hash@ == value_digest(value@),
        ensures
            wf(r),
            r.key@ == key@,
            r.value == Some(value),
            r.children@.len() == 0,
    {
        let mut n = MPTNode {
            key,
            value: Some(value),
            value_hash,
            children: Vec::new(),
            hash: zero_digest(),
        };
        n.update_hash();
        n
    }

    /// Where a child that starts with `b` goes among the ordered children.
    fn insert_position(&self, b: u8) -> (p: usize)
        requires
            sorted_children(self.children@),
            forall|j: int|
                0 <= j < self.children@.len() ==> (#[trigger] self.children@[j]).key@[0] != b,
        ensures
            p <= self.children@.len(),
            forall|j: int| 0 <= j < p ==> (#[trigger] self.children@[j]).key@[0] < b,
            forall|j: int|
                p <= j < self.children@.len() ==> (#[trigger] self.children@[j]).key@[0] > b,
    {
        let mut i: usize = 0;
        while i < self.children.len()
            invariant
                i <= self.children@.len(),
                sorted_children(self.children@),
                forall|j: int| 0 <= j < i ==> (#[trigger] self.children@[j]).key@[0] < b,
                forall|j: int|
                    0 <= j < self.children@.len() ==> (#[trigger] self.children@[j]).key@[0] != b,
            decreases self.children@.len() - i,
        {
            assert(self.children@[i as int].key@.len() > 0);
            if self.children[i].key[0] > b {
                assert forall|j: int| i <= j < self.children@.len() implies (#[trigger] self.children@[j]).key@[0] > b by {
                    if j > i {
                        assert(self.children@[i as int].key@[0] < self.children@[j].key@[0]);
                    }
                }
                return i;
            }
            i = i + 1;
        }
        i
    }

    /// Stores `value` under `key`, which holds no value yet.
    pub(crate) fn insert_new(&mut self, key: &[u8], value: Vec<u8>, value_hash: [u8; 32])
        requires
            wf(*old(self)),
            lookup(*old(self), key@) is None,
            value_hash@ == value_digest(value@),
        ensures
            wf(*final(self)),
            !is_empty_node(*final(self)),
            forall|k: Seq<u8>| #[trigger]
                lookup(*final(self), k) == if k == key@ {
                    Some(value@)
                } else {
                    lookup(*old(self), k)
                },
            key@.len() > 0 && old(self).key@.len() > 0 && key@[0] == old(self).key@[0]
                ==> final(self).key@.len() > 0 && final(self).key@[0] == old(self).key@[0],
        decreases key@.len(), if old(self).key@.len() == 0 { 1nat } else { 0nat },
    {
        let ghost o = *self;
        let ghost vv = value@;
        if self.value.is_none() && self.children.len() == 0 {
            proof {
                lemma_lookup_leaf(o);
            }
            self.key = slice_to_vec(key);
            self.value = Some(value);
            self.value_hash = value_hash;
            self.update_hash();
            proof {
                lemma_lookup_leaf(*self);
            }
            return;
        }
        let m = self.key.len();
        let l = MPT::common_prefix_length(self.key.as_slice(), key);
        if l == m {
            assert(key@.subrange(0, m as int) =~= self.key@);
            if key.len() == m {
                assert(key@ =~= o.key@);
                self.value = Some(value);
                self.value_hash = value_hash;
                self.update_hash();
                assert forall|k: Seq<u8>| #[trigger]
                    lookup(*self, k) == if k == key@ {
                        Some(vv)
                    } else {
                        lookup(o, k)
                    } by {
                    if starts_with(k, self.key@) && k.len() == m {
                        assert(k =~= key@);
                    }
                    if k == key@ {
                        assert(k.subrange(0, m as int) =~= k);
                    }
                }
                return;
            }
            let rest = slice_subrange(key, m, key.len());
            let b = rest[0];
            match self.find_child(b) {
                Some(i) => {
                    let ghost cs = o.children@;
                    assert(cs[i as int].key@[0] == b);
                    assert(wf(cs[i as int]));
                    let mut child = self.children.remove(i);
                    child.insert_new(rest, value, value_hash);
                    self.children.insert(i, child);
                    let ghost ns = self.children@;
                    assert(ns =~= cs.update(i as int, child));
                    assert(sorted_children(ns)) by {
                        assert forall|j: int| 0 <= j < ns.len() implies (#[trigger] ns[j]).key@[0]
                            == cs[j].key@[0] by {}
                    }
                    self.update_hash();
                    assert forall|k: Seq<u8>| #[trigger]
                        lookup(*self, k) == if k == key@ {
                            Some(vv)
                        } else {
                            lookup(o, k)
                        } by {
                        if starts_with(k, o.key@) && k.len() > m {
                            let rk = k.subrange(m as int, k.len() as int);
                            lemma_child_pos_same(ns, cs, rk[0]);
                            lemma_rest_eq(k, key@, m as int);
                            let c = child_pos(cs, rk[0]);
                            if 0 <= c < cs.len() {
                                assert(lookup(o, k) == lookup(cs[c], rk));
                                assert(lookup(*self, k) == lookup(ns[c], rk));
                                if c == i {
                                    assert(lookup(ns[c], rk) == if rk == rest@ {
                                        Some(vv)
                                    } else {
                                        lookup(cs[c], rk)
                                    });
                                }
                            }
                        } else if !starts_with(k, o.key@) {
                            assert(k != key@);
                        }
                    }
                },
                None => {
                    let ghost cs = o.children@;
                    assert forall|j: int| 0 <= j < cs.len() implies (#[trigger] cs[j]).key@[0]
                        != b by {
                        if cs[j].key@[0] == b {
                            lemma_child_pos(cs, b, j);
                        }
                    }
                    let p = self.insert_position(b);
                    let leaf = MPTNode::new(slice_to_vec(rest), value, value_hash);
                    proof {
                        lemma_lookup_leaf(leaf);
                    }
                    self.children.insert(p, leaf);
                    let ghost ns = self.children@;
                    assert(ns =~= cs.insert(p as int, leaf));
                    assert(sorted_children(ns)) by {
                        assert forall|x: int, y: int| 0 <= x < y < ns.len() implies (#[trigger] ns[x]).key@[0]
                            < (#[trigger] ns[y]).key@[0] by {
                            if x < p && y > p {
                                assert(ns[y] == cs[y - 1]);
                            } else if x > p {
                                assert(ns[x] == cs[x - 1]);
                                assert(ns[y] == cs[y - 1]);
                            }
                        }
                    }
                    assert forall|j: int| 0 <= j < ns.len() implies wf(#[trigger] ns[j]) by {
                        if j > p {
                            assert(ns[j] == cs[j - 1]);
                        }
                    }
                    self.update_hash();
                    assert forall|k: Seq<u8>| #[trigger]
                        lookup(*self, k) == if k == key@ {
                            Some(vv)
                        } else {
                            lookup(o, k)
                        } by {
                        if starts_with(k, o.key@) && k.len() > m {
                            let rk = k.subrange(m as int, k.len() as int);
                            lemma_rest_eq(k, key@, m as int);
                            if rk[0] == b {
                                lemma_child_pos(ns, b, p as int);
                                assert(lookup(*self, k) == lookup(leaf, rk));
                                assert(lookup(o, k) is None);
                            } else {
                                lemma_child_pos_insert(cs, p as int, leaf, rk[0]);
                                assert(k != key@);
                            }
                        } else if !starts_with(k, o.key@) {
                            assert(k != key@);
                        }
                    }
                },
            }
            return;
        }
        self.split_insert(key, l, value, value_hash);
    }

    /// Stores `value` under `key`, which leaves this node's label at `l`: the
    /// label is cut there, and what followed moves into a new child.
    fn split_insert(&mut self, key: &[u8], l: usize, value: Vec<u8>, value_hash: [u8; 32])
        requires
            wf(*old(self)),
            !is_empty_node(*old(self)),
            lookup(*old(self), key@) is None,
            value_hash@ == value_digest(value@),
            l < old(self).key@.len(),
            l <= key@.len(),
            key@.subrange(0, l as int) == old(self).key@.subrange(0, l as int),
            l < key@.len() ==> key@[l as int] != old(self).key@[l as int],
        ensures
            wf(*final(self)),
            !is_empty_node(*final(self)),
            forall|k: Seq<u8>| #[trigger]
                lookup(*final(self), k) == if k == key@ {
                    Some(value@)
                } else {
                    lookup(*old(self), k)
                },
            key@.len() > 0 && key@[0] == old(self).key@[0] ==> final(self).key@.len() > 0
                && final(self).key@[0] == old(self).key@[0],
    {
        let ghost o = *self;
        let ghost vv = value@;
        let m = self.key.len();
        let suffix = slice_to_vec(slice_subrange(self.key.as_slice(), l, m));
        let prefix = slice_to_vec(slice_subrange(self.key.as_slice(), 0, l));
        let mut old_children: Vec<MPTNode> = Vec::new();
        std::mem::swap(&mut old_children, &mut self.children);
        let mut old_value: Option<Vec<u8>> = None;
        std::mem::swap(&mut old_value, &mut self.value);
        let mb = suffix[0];
        let mut mid = MPTNode {
            key: suffix,
            value: old_value,
            value_hash: self.value_hash,
            children: old_children,
            hash: zero_digest(),
        };
        mid.update_hash();
        assert(wf(mid));
        assert(o.key@ =~= prefix@ + mid.key@);
        proof {
            lemma_lookup_prefix(o, mid, prefix@);
        }
        assert(key@.subrange(0, l as int) =~= prefix@);
        self.key = prefix;
        if key.len() == l {
            self.value = Some(value);
            self.value_hash = value_hash;
            self.children.push(mid);
            let ghost ns = self.children@;
            assert(ns =~= seq![mid]);
            self.update_hash();
            assert forall|k: Seq<u8>| #[trigger]
                lookup(*self, k) == if k == key@ {
                    Some(vv)
                } else {
                    lookup(o, k)
                } by {
                if starts_with(k, prefix@) {
                    if k.len() == l {
                        assert(key@.subrange(0, l as int) =~= key@);
                        assert(k.subrange(0, l as int) =~= k);
                        assert(k =~= key@);
                    } else {
                        let rk = k.subrange(l as int, k.len() as int);
                        if rk[0] == mb {
                            lemma_child_pos(ns, mb, 0);
                        }
                    }
                }
                if k == key@ {
                    assert(k.subrange(0, l as int) =~= prefix@);
                }
            }
        } else {
            let lb = key[l];
            let leaf = MPTNode::new(slice_to_vec(slice_subrange(key, l, key.len())), value, value_hash);
            proof {
                lemma_lookup_leaf(leaf);
            }
            if lb < mb {
                self.children.push(leaf);
                self.children.push(mid);
            } else {
                self.children.push(mid);
                self.children.push(leaf);
            }
            let ghost ns = self.children@;
            assert(ns =~= seq![leaf, mid] || ns =~= seq![mid, leaf]);
            assert(ns.len() == 2);
            self.update_hash();
            assert forall|k: Seq<u8>| #[trigger]
                lookup(*self, k) == if k == key@ {
                    Some(vv)
                } else {
                    lookup(o, k)
                } by {
                if starts_with(k, prefix@) && k.len() > l {
                    let rk = k.subrange(l as int, k.len() as int);
                    lemma_rest_eq(k, key@, l as int);
                    assert(lookup(o, k) == lookup(mid, rk));
                    if rk[0] != mb {
                        assert(!starts_with(rk, mid.key@)) by {
                            if starts_with(rk, mid.key@) {
                                assert(rk.subrange(0, mid.key@.len() as int)[0] == rk[0]);
                            }
                        }
                    }
                    if rk[0] == mb {
                        if lb < mb {
                            lemma_child_pos(ns, mb, 1);
                        } else {
                            lemma_child_pos(ns, mb, 0);
                        }
                        assert(lookup(*self, k) == lookup(mid, rk));
                        assert(k != key@);
                    } else if rk[0] == lb {
                        if lb < mb {
                            lemma_child_pos(ns, lb, 0);
                        } else {
                            lemma_child_pos(ns, lb, 1);
                        }
                        assert(lookup(*self, k) == lookup(leaf, rk));
                    } else {
                        assert(child_pos(ns, rk[0]) == -1);
                    }
                } else if starts_with(k, prefix@) {
                    assert(!starts_with(k.subrange(l as int, k.len() as int), mid.key@));
                    assert(k != key@);
                } else {
                    assert(k != key@);
                }
                if k == key@ {
                    assert(k.subrange(0, l as int) =~= prefix@);
                }
            }
        }
    }


    /// Restores the compressed shape after a removal below or at this node:
    /// an empty node loses its label, and a node without a value and with a
    /// single child absorbs that child. The digest is recomputed.
    fn compress(&mut self)
        requires
            sorted_children(old(self).children@),
            forall|i: int|
                0 <= i < old(self).children@.len() ==> wf(#[trigger] old(self).children@[i]),
            old(self).value matches Some(v) ==> old(self).value_hash@ == value_digest(v@),
        ensures
            wf(*final(self)),
            forall|k: Seq<u8>| #[trigger] lookup(*final(self), k) == lookup(*old(self), k),
            !is_empty_node(*final(self)) && old(self).key@.len() > 0 ==> final(self).key@.len() > 0
                && final(self).key@[0] == old(self).key@[0],
    {
        let ghost o = *self;
        if self.value.is_none() && self.children.len() == 0 {
            proof {
                lemma_lookup_leaf(o);
            }
            self.key = Vec::new();
            self.update_hash();
            proof {
                lemma_lookup_leaf(*self);
            }
            return;
        }
        if self.value.is_none() && self.children.len() == 1 {
            let c = self.children.pop().unwrap();
            assert(c == o.children@[0]);
            assert(wf(c));
            let MPTNode { key: mut ck, value: cv, value_hash: cvh, children: cc, hash: _ } = c;
            self.key.append(&mut ck);
            self.value = cv;
            self.value_hash = cvh;
            self.children = cc;
            self.update_hash();
            assert(self.key@ == o.key@ + c.key@);
            proof {
                lemma_lookup_prefix(*self, c, o.key@);
            }
            let ghost m = o.key@.len() as int;
            assert forall|k: Seq<u8>| #[trigger] lookup(*self, k) == lookup(o, k) by {
                if starts_with(k, o.key@) {
                    let rk = k.subrange(m, k.len() as int);
                    if k.len() == m {
                        assert(!starts_with(rk, c.key@));
                    } else if rk[0] == c.key@[0] {
                        lemma_child_pos(o.children@, rk[0], 0);
                    } else {
                        assert(!starts_with(rk, c.key@)) by {
                            if starts_with(rk, c.key@) {
                                assert(rk.subrange(0, c.key@.len() as int)[0] == rk[0]);
                            }
                        }
                    }
                }
            }
            return;
        }
        self.update_hash();
    }

    /// Takes out the value stored under `key`, which holds one.
    pub(crate) fn remove_present(&mut self, key: &[u8]) -> (r: Vec<u8>)
        requires
            wf(*old(self)),
            lookup(*old(self), key@) is Some,
        ensures
            lookup(*old(self), key@) == Some(r@),
            wf(*final(self)),
            forall|k: Seq<u8>| #[trigger]
                lookup(*final(self), k) == if k == key@ {
                    None
                } else {
                    lookup(*old(self), k)
                },
            !is_empty_node(*final(self)) && old(self).key@.len() > 0 ==> final(self).key@.len() > 0
                && final(self).key@[0] == old(self).key@[0],
        decreases key@.len(), if old(self).key@.len() == 0 { 1nat } else { 0nat },
    {
        let ghost o = *self;
        let m = self.key.len();
        assert(key@.subrange(0, m as int) == o.key@);
        if key.len() == m {
            assert(key@ =~= o.key@);
            let mut v: Option<Vec<u8>> = None;
            std::mem::swap(&mut v, &mut self.value);
            let r = v.unwrap();
            let ghost t = *self;
            assert forall|k: Seq<u8>| #[trigger]
                lookup(t, k) == if k == key@ {
                    None
                } else {
                    lookup(o, k)
                } by {
                if starts_with(k, o.key@) && k.len() == m {
                    assert(k =~= key@);
                }
            }
            self.compress();
            return r;
        }
        let rest = slice_subrange(key, m, key.len());
        let b = rest[0];
        let ghost cs = o.children@;
        let i = self.find_child(b).unwrap();
        assert(cs[i as int].key@[0] == b);
        assert(wf(cs[i as int]));
        let mut child = self.children.remove(i);
        let r = child.remove_present(rest);
        if child.value.is_some() || child.children.len() > 0 {
            self.children.insert(i, child);
            let ghost ns = self.children@;
            assert(ns =~= cs.update(i as int, child));
            assert(sorted_children(ns)) by {
                assert forall|j: int| 0 <= j < ns.len() implies (#[trigger] ns[j]).key@[0]
                    == cs[j].key@[0] by {}
            }
            let ghost t = *self;
            assert forall|k: Seq<u8>| #[trigger]
                lookup(t, k) == if k == key@ {
                    None
                } else {
                    lookup(o, k)
                } by {
                if starts_with(k, o.key@) && k.len() > m {
                    let rk = k.subrange(m as int, k.len() as int);
                    lemma_child_pos_same(ns, cs, rk[0]);
                    lemma_rest_eq(k, key@, m as int);
                    let c = child_pos(cs, rk[0]);
                    if 0 <= c < cs.len() {
                        assert(lookup(o, k) == lookup(cs[c], rk));
                        assert(lookup(t, k) == lookup(ns[c], rk));
                    }
                } else if !starts_with(k, o.key@) {
                    assert(k != key@);
                }
            }
        } else {
            proof {
                lemma_lookup_leaf(child);
                assert forall|rk: Seq<u8>|
                    rk != key@.subrange(m as int, key@.len() as int) implies #[trigger] lookup(
                    cs[i as int],
                    rk,
                ) is None by {
                    assert(lookup(child, rk) == lookup(cs[i as int], rk));
                }
                lemma_drop_child(o, *self, i as int, key@);
            }
        }
        self.compress();
        r
    }

    /// The value stored under `key`, read from this node's label on.
    pub fn get<'a>(&'a self, key: &[u8]) -> (r: Option<&'a Vec<u8>>)
        requires
            wf(*self),
        ensures
            match r {
                Some(v) => lookup(*self, key@) == Some(v@),
                None => lookup(*self, key@) is None,
            },
        decreases self,
    {
        let m = self.key.len();
        let l = MPT::common_prefix_length(self.key.as_slice(), key);
        if l < m {
            assert(!starts_with(key@, self.key@)) by {
                if starts_with(key@, self.key@) {
                    assert(key@[l as int] == key@.subrange(0, m as int)[l as int]);
                }
            }
            return None;
        }
        assert(key@.subrange(0, m as int) =~= self.key@);
        if key.len() == m {
            return match &self.value {
                Some(v) => Some(v),
                None => None,
            };
        }
        let rest = slice_subrange(key, m, key.len());
        match self.find_child(rest[0]) {
            Some(i) => {
                assert(wf(self.children@[i as int]));
                self.children[i].get(rest)
            },
            None => None,
        }
    }

    /// Recomputes this node's digest from its label, value digest and children.
    fn update_hash(&mut self)
        ensures
            final(self).key == old(self).key,
            final(self).value == old(self).value,
            final(self).value_hash == old(self).value_hash,
            final(self).children == old(self).children,
            final(self).hash@ == node_digest(*final(self)),
    {
        if self.value.is_none() && self.children.len() == 0 {
            self.hash = zero_digest();
            return;
        }
        let kh = sha256(self.key.as_slice());
        let mut buf: Vec<u8> = Vec::new();
        append_digest(&mut buf, &kh);
        if self.value.is_some() {
            append_digest(&mut buf, &self.value_hash);
        }
        let ghost head = buf@;
        let mut i: usize = 0;
        while i < self.children.len()
            invariant
                i <= self.children@.len(),
                buf@ == head + children_hashes(self.children@.subrange(0, i as int)),
            decreases self.children@.len() - i,
        {
            append_digest(&mut buf, &self.children[i].hash);
            i = i + 1;
            assert(self.children@.subrange(0, i as int).drop_last() =~= self.children@.subrange(
                0,
                i - 1,
            ));
        }
        assert(self.children@.subrange(0, i as int) =~= self.children@);
        assert(buf@ =~= digest_input(*self));
        self.hash = sha256(buf.as_slice());
    }
}

} // verus!
