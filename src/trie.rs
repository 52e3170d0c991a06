//! The trie as a whole: a key/value map with a root digest that commits to it.
use crate::digest::{empty_digest, hash_value, value_digest, zero_digest};
use crate::node::{children_hashes, child_pos, digest_input, sorted_children, compressed, is_empty_node, lemma_child_pos, lemma_lookup_leaf, lookup, starts_with, wf, MPTNode, TrieError};
use vstd::prelude::*;

verus! {

/// Every node of the subtree holds a value or branches at least two ways,
/// except an empty node with an empty label.
pub open spec fn all_compressed(n: MPTNode) -> bool
    decreases n,
{
    &&& compressed(n)
    &&& forall|i: int| 0 <= i < n.children@.len() ==> all_compressed(#[trigger] n.children@[i])
}

pub proof fn lemma_wf_all_compressed(n: MPTNode)
    requires
        wf(n),
    ensures
        all_compressed(n),
    decreases n,
{
    assert forall|i: int| 0 <= i < n.children@.len() implies all_compressed(
        #[trigger] n.children@[i],
    ) by {
        lemma_wf_all_compressed(n.children@[i]);
    }
}

/// Each child of a well-formed node holds some key, found through that child.
pub proof fn lemma_child_has_key(n: MPTNode, i: int) -> (k: Seq<u8>)
    requires
        wf(n),
        0 <= i < n.children@.len(),
    ensures
        starts_with(k, n.key@),
        k.len() > n.key@.len(),
        k[n.key@.len() as int] == n.children@[i].key@[0],
        lookup(n, k) is Some,
{
    let c = n.children@[i];
    assert(wf(c));
    let rk = lemma_nonempty_has_key(c);
    let k = n.key@ + rk;
    assert(k.subrange(0, n.key@.len() as int) =~= n.key@);
    assert(k.subrange(n.key@.len() as int, k.len() as int) =~= rk);
    assert(rk[0] == c.key@[0]) by {
        assert(rk.subrange(0, c.key@.len() as int)[0] == rk[0]);
    }
    lemma_child_pos(n.children@, rk[0], i);
    k
}

/// Of two well-formed nodes that hold the same keys, the first label is no
/// shorter than the second where it is a prefix of it.
proof fn lemma_label_not_shorter(a: MPTNode, b: MPTNode)
    requires
        wf(a),
        wf(b),
        !is_empty_node(a),
        forall|k: Seq<u8>| #[trigger] lookup(a, k) == lookup(b, k),
        starts_with(b.key@, a.key@),
    ensures
        a.key@.len() >= b.key@.len(),
{
    let m = a.key@.len() as int;
    if m < b.key@.len() {
        if a.value is Some {
            assert(a.key@.subrange(0, m) =~= a.key@);
            assert(lookup(a, a.key@) is Some);
            assert(lookup(b, a.key@) is Some);
        } else {
            let k0 = lemma_child_has_key(a, 0);
            let k1 = lemma_child_has_key(a, 1);
            assert(lookup(b, k0) is Some);
            assert(lookup(b, k1) is Some);
            assert(k0[m] == k0.subrange(0, b.key@.len() as int)[m]);
            assert(k1[m] == k1.subrange(0, b.key@.len() as int)[m]);
        }
    }
}

/// Two well-formed non-empty nodes that hold the same keys have the same label.
proof fn lemma_same_label(a: MPTNode, b: MPTNode)
    requires
        wf(a),
        wf(b),
        !is_empty_node(a),
        !is_empty_node(b),
        forall|k: Seq<u8>| #[trigger] lookup(a, k) == lookup(b, k),
    ensures
        a.key@ == b.key@,
{
    let k0 = lemma_nonempty_has_key(a);
    assert(lookup(b, k0) is Some);
    let la = a.key@.len() as int;
    let lb = b.key@.len() as int;
    if la <= lb {
        assert(b.key@.subrange(0, la) =~= k0.subrange(0, lb).subrange(0, la));
        assert(k0.subrange(0, la) =~= k0.subrange(0, lb).subrange(0, la));
        lemma_label_not_shorter(a, b);
        assert(a.key@ =~= b.key@);
    } else {
        assert(a.key@.subrange(0, lb) =~= k0.subrange(0, la).subrange(0, lb));
        assert(k0.subrange(0, lb) =~= k0.subrange(0, la).subrange(0, lb));
        lemma_label_not_shorter(b, a);
    }
}

/// Ordered children whose first bytes each occur in the other sequence have
/// the same first bytes, position by position, up to `n`.
proof fn lemma_same_bytes_upto(cs: Seq<MPTNode>, ds: Seq<MPTNode>, n: int)
    requires
        sorted_children(cs),
        sorted_children(ds),
        forall|i: int| 0 <= i < cs.len() ==> 0 <= #[trigger] child_pos(ds, cs[i].key@[0]) < ds.len(),
        forall|i: int| 0 <= i < ds.len() ==> 0 <= #[trigger] child_pos(cs, ds[i].key@[0]) < cs.len(),
        0 <= n <= cs.len(),
        n <= ds.len(),
    ensures
        forall|i: int| 0 <= i < n ==> (#[trigger] cs[i]).key@[0] == ds[i].key@[0],
    decreases n,
{
    if n > 0 {
        lemma_same_bytes_upto(cs, ds, n - 1);
        let i = n - 1;
        let x = cs[i].key@[0];
        let j = child_pos(ds, x);
        assert(ds[j].key@[0] == x);
        if j < i {
            assert(cs[j].key@[0] == ds[j].key@[0]);
            assert(cs[j].key@[0] < cs[i].key@[0]);
        } else if j > i {
            let y = ds[i].key@[0];
            assert(y < x);
            let i2 = child_pos(cs, y);
            assert(cs[i2].key@[0] == y);
            if i2 < i {
                assert(cs[i2].key@[0] == ds[i2].key@[0]);
                assert(ds[i2].key@[0] < ds[i].key@[0]);
            } else if i2 > i {
                assert(cs[i].key@[0] < cs[i2].key@[0]);
            }
        }
    }
}

proof fn lemma_same_bytes(cs: Seq<MPTNode>, ds: Seq<MPTNode>)
    requires
        sorted_children(cs),
        sorted_children(ds),
        forall|i: int| 0 <= i < cs.len() ==> 0 <= #[trigger] child_pos(ds, cs[i].key@[0]) < ds.len(),
        forall|i: int| 0 <= i < ds.len() ==> 0 <= #[trigger] child_pos(cs, ds[i].key@[0]) < cs.len(),
    ensures
        cs.len() == ds.len(),
        forall|i: int| 0 <= i < cs.len() ==> (#[trigger] cs[i]).key@[0] == ds[i].key@[0],
{
    if cs.len() < ds.len() {
        lemma_same_bytes_upto(cs, ds, cs.len() as int);
        let y = ds[cs.len() as int].key@[0];
        let i2 = child_pos(cs, y);
        assert(cs[i2].key@[0] == y);
        assert(ds[i2].key@[0] < ds[cs.len() as int].key@[0]);
    } else if cs.len() > ds.len() {
        lemma_same_bytes_upto(cs, ds, ds.len() as int);
        let y = cs[ds.len() as int].key@[0];
        let i2 = child_pos(ds, y);
        assert(ds[i2].key@[0] == y);
        assert(cs[i2].key@[0] < cs[ds.len() as int].key@[0]);
    } else {
        lemma_same_bytes_upto(cs, ds, cs.len() as int);
    }
}

proof fn lemma_children_hashes_eq(cs: Seq<MPTNode>, ds: Seq<MPTNode>)
    requires
        cs.len() == ds.len(),
        forall|i: int| 0 <= i < cs.len() ==> (#[trigger] cs[i]).hash@ == ds[i].hash@,
    ensures
        children_hashes(cs) == children_hashes(ds),
    decreases cs.len(),
{
    if cs.len() > 0 {
        lemma_children_hashes_eq(cs.drop_last(), ds.drop_last());
    }
}

/// Two well-formed nodes that hold the same keys and values have the same digest.
pub proof fn lemma_same_content_same_digest(a: MPTNode, b: MPTNode)
    requires
        wf(a),
        wf(b),
        forall|k: Seq<u8>| #[trigger] lookup(a, k) == lookup(b, k),
    ensures
        a.hash@ == b.hash@,
    decreases a,
{
    if is_empty_node(a) || is_empty_node(b) {
        if !is_empty_node(b) {
            lemma_lookup_leaf(a);
            let k = lemma_nonempty_has_key(b);
            assert(lookup(a, k) is None);
        } else if !is_empty_node(a) {
            lemma_lookup_leaf(b);
            let k = lemma_nonempty_has_key(a);
            assert(lookup(b, k) is None);
        }
        return;
    }
    lemma_same_label(a, b);
    let key = a.key@;
    let m = key.len() as int;
    assert(key.subrange(0, m) =~= key);
    assert(lookup(a, key) == lookup(b, key));
    assert(a.value is Some <==> b.value is Some);
    let cs = a.children@;
    let ds = b.children@;
    assert forall|i: int| 0 <= i < cs.len() implies 0 <= #[trigger] child_pos(ds, cs[i].key@[0])
        < ds.len() by {
        let k = lemma_child_has_key(a, i);
        assert(lookup(b, k) is Some);
    }
    assert forall|i: int| 0 <= i < ds.len() implies 0 <= #[trigger] child_pos(cs, ds[i].key@[0])
        < cs.len() by {
        let k = lemma_child_has_key(b, i);
        assert(lookup(a, k) is Some);
    }
    lemma_same_bytes(cs, ds);
    assert forall|i: int| 0 <= i < cs.len() implies (#[trigger] cs[i]).hash@ == ds[i].hash@ by {
        let x = cs[i].key@[0];
        lemma_child_pos(cs, x, i);
        lemma_child_pos(ds, x, i);
        assert(wf(cs[i]));
        assert(wf(ds[i]));
        assert forall|rk: Seq<u8>| #[trigger] lookup(cs[i], rk) == lookup(ds[i], rk) by {
            if rk.len() > 0 && rk[0] == x {
                let k = key + rk;
                assert(k.subrange(0, m) =~= key);
                assert(k.subrange(m, k.len() as int) =~= rk);
                assert(lookup(a, k) == lookup(b, k));
            } else {
                if starts_with(rk, cs[i].key@) {
                    assert(rk.subrange(0, cs[i].key@.len() as int)[0] == rk[0]);
                }
                if starts_with(rk, ds[i].key@) {
                    assert(rk.subrange(0, ds[i].key@.len() as int)[0] == rk[0]);
                }
            }
        }
        lemma_same_content_same_digest(cs[i], ds[i]);
    }
    lemma_children_hashes_eq(cs, ds);
    assert(digest_input(a) == digest_input(b));
}

/// The union of `f(0)`, ..., `f(i - 1)`.
pub open spec fn union_upto(f: spec_fn(int) -> Set<Seq<u8>>, i: nat) -> Set<Seq<u8>>
    decreases i,
{
    if i == 0 {
        Set::empty()
    } else {
        union_upto(f, (i - 1) as nat).union(f(i - 1))
    }
}

proof fn lemma_union_upto(f: spec_fn(int) -> Set<Seq<u8>>, i: nat)
    requires
        forall|j: int| 0 <= j < i ==> #[trigger] f(j).finite(),
    ensures
        union_upto(f, i).finite(),
        forall|j: int, x: Seq<u8>|
            0 <= j < i && #[trigger] f(j).contains(x) ==> union_upto(f, i).contains(x),
    decreases i,
{
    if i > 0 {
        lemma_union_upto(f, (i - 1) as nat);
    }
}

/// `t` is finite and holds every key that `n` holds.
pub open spec fn covers(t: Set<Seq<u8>>, n: MPTNode) -> bool {
    t.finite() && forall|r: Seq<u8>| #[trigger] lookup(n, r) is Some ==> t.contains(r)
}

pub open spec fn has_cover(n: MPTNode) -> bool {
    exists|t: Set<Seq<u8>>| #[trigger] covers(t, n)
}

/// The keys that a node holds lie in a finite set.
pub proof fn lemma_keys_finite(n: MPTNode) -> (s: Set<Seq<u8>>)
    ensures
        covers(s, n),
    decreases n,
{
    let cs = n.children@;
    assert forall|i: int| 0 <= i < cs.len() implies has_cover(#[trigger] cs[i]) by {
        let t = lemma_keys_finite(cs[i]);
        assert(covers(t, cs[i]));
    }
    let f = |i: int| choose|t: Set<Seq<u8>>| #[trigger] covers(t, cs[i]);
    let g = |i: int| f(i).map(|r: Seq<u8>| n.key@ + r);
    assert forall|j: int| 0 <= j < cs.len() implies #[trigger] g(j).finite() by {
        assert(has_cover(cs[j]));
        assert(covers(f(j), cs[j]));
        f(j).lemma_map_finite(|r: Seq<u8>| n.key@ + r);
    }
    lemma_union_upto(g, cs.len());
    let s = union_upto(g, cs.len()).insert(n.key@);
    assert forall|k: Seq<u8>| #[trigger] lookup(n, k) is Some implies s.contains(k) by {
        let m = n.key@.len() as int;
        if k.len() > m {
            let rk = k.subrange(m, k.len() as int);
            let i = child_pos(cs, rk[0]);
            assert(lookup(cs[i], rk) is Some);
            assert(has_cover(cs[i]));
            assert(covers(f(i), cs[i]));
            assert(f(i).contains(rk));
            assert(k =~= n.key@ + rk);
            assert(g(i).contains(k));
        } else {
            assert(k =~= n.key@);
        }
    }
    s
}

/// Walks a subtree and checks that every node keeps the compressed shape.
fn check_compressed(n: &MPTNode) -> (r: bool)
    ensures
        r == all_compressed(*n),
    decreases n,
{
    let shape = n.value.is_some() || n.children.len() >= 2 || (n.value.is_none()
        && n.children.len() == 0 && n.key.len() == 0);
    if !shape {
        return false;
    }
    let mut i: usize = 0;
    while i < n.children.len()
        invariant
            i <= n.children@.len(),
            forall|j: int| 0 <= j < i ==> all_compressed(#[trigger] n.children@[j]),
        decreases n.children@.len() - i,
    {
        if !check_compressed(&n.children[i]) {
            return false;
        }
        i = i + 1;
    }
    true
}

/// A well-formed node that is not empty holds some key.
pub proof fn lemma_nonempty_has_key(n: MPTNode) -> (k: Seq<u8>)
    requires
        wf(n),
        !is_empty_node(n),
    ensures
        lookup(n, k) is Some,
        starts_with(k, n.key@),
    decreases n,
{
    if n.value is Some {
        assert(n.key@.subrange(0, n.key@.len() as int) =~= n.key@);
        n.key@
    } else {
        let c = n.children@[0];
        assert(wf(c));
        let rk = lemma_nonempty_has_key(c);
        let k = n.key@ + rk;
        assert(k.subrange(0, n.key@.len() as int) =~= n.key@);
        assert(k.subrange(n.key@.len() as int, k.len() as int) =~= rk);
        assert(rk[0] == c.key@[0]) by {
            assert(rk.subrange(0, c.key@.len() as int)[0] == rk[0]);
        }
        lemma_child_pos(n.children@, rk[0], 0);
        k
    }
}

/// A Merkle radix trie over byte-string keys with byte-string values.
pub struct MerklePatriciaTree {
    root: MPTNode,
}

impl View for MerklePatriciaTree {
    type V = Map<Seq<u8>, Seq<u8>>;

    closed spec fn view(&self) -> Map<Seq<u8>, Seq<u8>> {
        Map::new(|k: Seq<u8>| lookup(self.root, k) is Some, |k: Seq<u8>| lookup(self.root, k)->0)
    }
}

impl MerklePatriciaTree {
    /// The digest of the root node: the trie's fingerprint.
    pub closed spec fn root_digest(&self) -> Seq<u8> {
        self.root.hash@
    }

    /// No node holds neither a value nor two children, but an empty root.
    pub closed spec fn compressed(&self) -> bool {
        all_compressed(self.root)
    }

    proof fn lemma_view(&self, k: Seq<u8>)
        ensures
            self@.contains_key(k) <==> lookup(self.root, k) is Some,
            self@.contains_key(k) ==> lookup(self.root, k) == Some(self@[k]),
    {
    }

    /// Stores `value` under a new `key`, given the digest of the value's encoding.
    pub fn insert_hashed(&mut self, key: &[u8], value: Vec<u8>, value_hash: [u8; 32]) -> (r: Result<
        (),
        TrieError,
    >)
        requires
            old(self).well_formed(),
            value_hash@ == value_digest(value@),
        ensures
            final(self).well_formed(),
            final(self).compressed(),
            old(self)@.contains_key(key@) ==> r == Err::<(), TrieError>(TrieError::KeyExists)
                && *final(self) == *old(self),
            !old(self)@.contains_key(key@) ==> r is Ok && final(self)@ == old(self)@.insert(
                key@,
                value@,
            ),
    {
        proof {
            lemma_wf_all_compressed(self.root);
        }
        if self.root.get(key).is_some() {
            return Err(TrieError::KeyExists);
        }
        let ghost vv = value@;
        let ghost o = *self;
        self.root.insert_new(key, value, value_hash);
        proof {
            lemma_wf_all_compressed(self.root);
        }
        assert(self@ =~= o@.insert(key@, vv));
        Ok(())
    }

    /// Whether the trie holds no key.
    pub fn is_empty(&self) -> (r: bool)
        requires
            self.well_formed(),
        ensures
            self@.dom().finite(),
            r == (self@ == Map::<Seq<u8>, Seq<u8>>::empty()),
            r == (self@.len() == 0),
    {
        proof {
            law_finite_keys(*self);
        }
        let r = self.root.value.is_none() && self.root.children.len() == 0;
        proof {
            if r {
                lemma_lookup_leaf(self.root);
                assert(self@ =~= Map::<Seq<u8>, Seq<u8>>::empty());
            } else {
                let k = lemma_nonempty_has_key(self.root);
                assert(self@.contains_key(k));
            }
        }
        r
    }

    /// Whether every node keeps the compressed shape; a check for tests.
    pub fn is_compressed(&self) -> (r: bool)
        ensures
            r == self.compressed(),
    {
        check_compressed(&self.root)
    }

    /// The root digest.
    pub fn root_hash(&self) -> (r: [u8; 32])
        ensures
            r@ == self.root_digest(),
    {
        self.root.hash
    }
}

/// A key/value map over byte-string keys that commits to its content.
pub trait Merkle: Sized + View<V = Map<Seq<u8>, Seq<u8>>> {
    /// The structure's invariant.
    spec fn well_formed(&self) -> bool;

    /// An empty map.
    fn new() -> (r: Self)
        ensures
            r.well_formed(),
            r@ == Map::<Seq<u8>, Seq<u8>>::empty(),
    ;

    /// Stores `value` under a new `key`. A key that holds a value already is
    /// refused with `KeyExists`, and a refused insertion changes nothing.
    fn insert(&mut self, key: &[u8], value: Vec<u8>) -> (r: Result<(), TrieError>)
        requires
            old(self).well_formed(),
        ensures
            final(self).well_formed(),
            r is Err ==> *final(self) == *old(self),
            old(self)@.contains_key(key@) ==> r == Err::<(), TrieError>(TrieError::KeyExists),
            !old(self)@.contains_key(key@) ==> r is Ok,
            r is Ok ==> final(self)@ == old(self)@.insert(key@, value@),
    ;

    /// The value stored under `key`.
    fn get<'a>(&'a self, key: &[u8]) -> (r: Option<&'a Vec<u8>>)
        requires
            self.well_formed(),
        ensures
            match r {
                Some(v) => self@.contains_key(key@) && self@[key@] == v@,
                None => !self@.contains_key(key@),
            },
    ;

    /// Takes out the value stored under `key`. Nothing changes where `key`
    /// holds no value.
    fn remove(&mut self, key: &[u8]) -> (r: Option<Vec<u8>>)
        requires
            old(self).well_formed(),
        ensures
            final(self).well_formed(),
            final(self)@ == old(self)@.remove(key@),
            match r {
                Some(v) => old(self)@.contains_key(key@) && old(self)@[key@] == v@,
                None => !old(self)@.contains_key(key@) && *final(self) == *old(self),
            },
    ;
}

impl Merkle for MerklePatriciaTree {
    closed spec fn well_formed(&self) -> bool {
        wf(self.root)
    }

    fn new() -> (r: MerklePatriciaTree) {
        let root = MPTNode {
            key: Vec::new(),
            value: None,
            value_hash: zero_digest(),
            children: Vec::new(),
            hash: zero_digest(),
        };
        proof {
            lemma_lookup_leaf(root);
        }
        let r = MerklePatriciaTree { root };
        assert(r@ =~= Map::<Seq<u8>, Seq<u8>>::empty());
        r
    }

    fn get<'a>(&'a self, key: &[u8]) -> (r: Option<&'a Vec<u8>>) {
        self.root.get(key)
    }

    fn insert(&mut self, key: &[u8], value: Vec<u8>) -> (r: Result<(), TrieError>) {
        if self.root.get(key).is_some() {
            return Err(TrieError::KeyExists);
        }
        match hash_value(&value) {
            Some(h) => self.insert_hashed(key, value, h),
            None => Err(TrieError::EncodingFailure),
        }
    }

    fn remove(&mut self, key: &[u8]) -> (r: Option<Vec<u8>>) {
        if self.root.get(key).is_none() {
            assert(self@ =~= self@.remove(key@));
            return None;
        }
        let ghost o = *self;
        let r = self.root.remove_present(key);
        assert(self@ =~= o@.remove(key@));
        Some(r)
    }
}

/// Two tries are equal when their root digests are.
impl PartialEq for MerklePatriciaTree {
    fn eq(&self, other: &MerklePatriciaTree) -> (r: bool) {
        let a = self.root_hash();
        let b = other.root_hash();
        let mut i: usize = 0;
        while i < 32
            invariant
                i <= 32,
                a@.len() == 32,
                b@.len() == 32,
                a@ == self.root_digest(),
                b@ == other.root_digest(),
                forall|j: int| 0 <= j < i ==> a@[j] == b@[j],
            decreases 32 - i,
        {
            if a[i] != b[i] {
                assert(a@[i as int] != b@[i as int]);
                return false;
            }
            i = i + 1;
        }
        assert(a@ =~= b@);
        true
    }
}

impl vstd::std_specs::cmp::PartialEqSpecImpl for MerklePatriciaTree {
    open spec fn obeys_eq_spec() -> bool {
        true
    }

    open spec fn eq_spec(&self, other: &MerklePatriciaTree) -> bool {
        self.root_digest() == other.root_digest()
    }
}

/// Every well-formed trie, and so the one that any `insert` or `remove`
/// leaves, is compressed: no node lacks both a value and a second child, but
/// an empty root.
pub proof fn law_well_formed_is_compressed(t: MerklePatriciaTree)
    requires
        t.well_formed(),
    ensures
        t.compressed(),
{
    lemma_wf_all_compressed(t.root);
}

/// A trie holds finitely many keys.
pub proof fn law_finite_keys(t: MerklePatriciaTree)
    ensures
        t@.dom().finite(),
{
    let s = lemma_keys_finite(t.root);
    assert(t@.dom().subset_of(s));
    vstd::set_lib::lemma_set_subset_finite(s, t@.dom());
}

/// A well-formed trie that holds no key has the empty digest at its root.
pub proof fn law_empty_digest(t: MerklePatriciaTree)
    requires
        t.well_formed(),
        t@ == Map::<Seq<u8>, Seq<u8>>::empty(),
    ensures
        t.root_digest() == empty_digest(),
{
    if !is_empty_node(t.root) {
        let k = lemma_nonempty_has_key(t.root);
        t.lemma_view(k);
    }
}

/// A value inserted under a key is what a lookup of that key then finds.
pub proof fn law_insert_then_get(
    before: MerklePatriciaTree,
    after: MerklePatriciaTree,
    k: Seq<u8>,
    v: Seq<u8>,
)
    requires
        after@ == before@.insert(k, v),
    ensures
        after@.contains_key(k),
        after@[k] == v,
{
}

/// Once a key has been inserted the trie holds it with that value; as
/// `insert` refuses a key that is present, a second value does not replace it.
pub proof fn law_duplicate_rejected(
    before: MerklePatriciaTree,
    after: MerklePatriciaTree,
    k: Seq<u8>,
    v1: Seq<u8>,
)
    requires
        after@ == before@.insert(k, v1),
    ensures
        after@.contains_key(k),
        after@[k] == v1,
{
}

/// Removing a key just inserted hands back its value, leaves the key absent,
/// and restores the map as it was before the insertion.
pub proof fn law_insert_then_remove(
    t0: MerklePatriciaTree,
    t1: MerklePatriciaTree,
    t2: MerklePatriciaTree,
    k: Seq<u8>,
    v: Seq<u8>,
)
    requires
        !t0@.contains_key(k),
        t1@ == t0@.insert(k, v),
        t2@ == t1@.remove(k),
    ensures
        t1@.contains_key(k) && t1@[k] == v,
        !t2@.contains_key(k),
        t2@ == t0@,
{
    assert(t2@ =~= t0@);
}

/// The root digest depends on the stored keys and values alone: tries that
/// hold the same map have the same digest, whatever order of insertions and
/// removals built them.
pub proof fn law_digest_determinism(t1: MerklePatriciaTree, t2: MerklePatriciaTree)
    requires
        t1.well_formed(),
        t2.well_formed(),
        t1@ == t2@,
    ensures
        t1.root_digest() == t2.root_digest(),
{
    assert forall|k: Seq<u8>| #[trigger] lookup(t1.root, k) == lookup(t2.root, k) by {
        t1.lemma_view(k);
        t2.lemma_view(k);
    }
    lemma_same_content_same_digest(t1.root, t2.root);
}

/// Inserting a new key and then removing it restores the root digest.
pub proof fn law_insert_remove_restores_digest(
    t0: MerklePatriciaTree,
    t1: MerklePatriciaTree,
    t2: MerklePatriciaTree,
    k: Seq<u8>,
    v: Seq<u8>,
)
    requires
        t0.well_formed(),
        t2.well_formed(),
        !t0@.contains_key(k),
        t1@ == t0@.insert(k, v),
        t2@ == t1@.remove(k),
    ensures
        t2.root_digest() == t0.root_digest(),
{
    assert(t2@ =~= t0@);
    law_digest_determinism(t2, t0);
}

/// Keys that differ, also where one is a prefix of the other, do not disturb
/// each other: both are found after inserting both, and removing one keeps the
/// other.
pub proof fn law_distinct_keys_independent(
    t0: MerklePatriciaTree,
    t1: MerklePatriciaTree,
    t2: MerklePatriciaTree,
    k1: Seq<u8>,
    v1: Seq<u8>,
    k2: Seq<u8>,
    v2: Seq<u8>,
)
    requires
        k1 != k2,
        t1@ == t0@.insert(k1, v1),
        t2@ == t1@.insert(k2, v2),
    ensures
        t2@[k1] == v1,
        t2@[k2] == v2,
        t2@.remove(k1).contains_key(k2) && t2@.remove(k1)[k2] == v2,
        t2@.remove(k2).contains_key(k1) && t2@.remove(k2)[k1] == v1,
{
}

} // verus!
