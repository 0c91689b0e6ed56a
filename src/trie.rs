//! A prefix trie over byte-reversed domain names.
//!
//! The key of `a.b.c` is the reversed UTF-8 encoding `c.b.a`, so that every parent
//! domain of a name is a prefix of its key that ends at a label boundary.

use bit_vec::BitVec;
use qp_trie::Trie as QpTrie;
use vstd::prelude::*;
use vstd::utf8::encode_utf8;

verus! {

#[verifier::external_type_specification]
#[verifier::external_body]
#[verifier::reject_recursive_types(B)]
pub struct ExBitVec<B>(BitVec<B>);

#[verifier::external_type_specification]
#[verifier::external_body]
#[verifier::reject_recursive_types(K)]
#[verifier::reject_recursive_types(V)]
pub struct ExQpTrie<K, V>(QpTrie<K, V>);

/// The bits that a bit vector holds, in order.
pub uninterp spec fn bits_of(b: BitVec) -> Seq<bool>;

/// What a backing trie holds: for each key, the sources and the allow flag of its node.
pub uninterp spec fn entries_of(t: Entries) -> Map<Seq<u8>, (Seq<bool>, bool)>;

/// Relies on `BitVec::new`: a bit vector without bits.
#[verifier::external_body]
fn bits_empty() -> (r: BitVec)
    ensures
        bits_of(r) == Seq::<bool>::empty(),
{
    BitVec::new()
}

/// Relies on `BitVec::from_elem`: `n` bits, each equal to `bit`.
#[verifier::external_body]
fn bits_filled(n: usize, bit: bool) -> (r: BitVec)
    ensures
        bits_of(r) == Seq::new(n as nat, |_i: int| bit),
{
    BitVec::from_elem(n, bit)
}

/// Relies on `BitVec::get`: the bit at `i`, or `None` past the end.
#[verifier::external_body]
fn bits_get(b: &BitVec, i: usize) -> (r: Option<bool>)
    ensures
        i < bits_of(*b).len() ==> r == Some(bits_of(*b)[i as int]),
        i >= bits_of(*b).len() ==> r is None,
{
    b.get(i)
}

/// Relies on `BitVec::set`, which panics past the end.
#[verifier::external_body]
fn bits_set(b: &mut BitVec, i: usize, x: bool)
    requires
        i < bits_of(*old(b)).len(),
    ensures
        bits_of(*final(b)) == bits_of(*old(b)).update(i as int, x),
{
    b.set(i, x)
}

/// Relies on `BitVec::grow`: appends `n` bits equal to `x`; it panics where the
/// length overflows.
#[verifier::external_body]
fn bits_grow(b: &mut BitVec, n: usize, x: bool)
    requires
        bits_of(*old(b)).len() + n <= usize::MAX,
    ensures
        bits_of(*final(b)) == bits_of(*old(b)) + Seq::new(n as nat, |_i: int| x),
{
    b.grow(n, x)
}

/// Relies on `BitVec::len`: the number of bits.
#[verifier::external_body]
fn bits_len(b: &BitVec) -> (r: usize)
    ensures
        r == bits_of(*b).len(),
{
    b.len()
}

/// Relies on `BitVec::any`: whether some bit is set.
#[verifier::external_body]
fn bits_any(b: &BitVec) -> (r: bool)
    ensures
        r == any_set(bits_of(*b)),
{
    b.any()
}

/// Relies on `qp_trie::Trie::new`: an empty trie.
#[verifier::external_body]
fn entries_new() -> (r: Entries)
    ensures
        entries_of(r).dom() == Set::<Seq<u8>>::empty(),
{
    QpTrie::new()
}

/// Relies on `qp_trie::Trie::get`: the value stored under `key`, if any.
#[verifier::external_body]
fn entry_get<'a>(t: &'a Entries, key: &[u8]) -> (r: Option<&'a TrieValue>)
    ensures
        match r {
            Some(v) => entries_of(*t).contains_key(key@) && entries_of(*t)[key@] == v@,
            None => !entries_of(*t).contains_key(key@),
        },
{
    t.get(key)
}

/// Relies on `qp_trie::Trie::insert`: stores `v` under `key` and hands back the
/// value that was there.
#[verifier::external_body]
fn entry_insert(t: &mut Entries, key: Vec<u8>, v: TrieValue) -> (r: Option<TrieValue>)
    ensures
        entries_of(*final(t)) == entries_of(*old(t)).insert(key@, v@),
        match r {
            Some(o) => entries_of(*old(t)).contains_key(key@) && o@ == entries_of(*old(t))[key@],
            None => !entries_of(*old(t)).contains_key(key@),
        },
{
    t.insert(key, v)
}

/// Relies on `qp_trie::Trie::remove`: takes out the value stored under `key`.
#[verifier::external_body]
fn entry_remove(t: &mut Entries, key: &[u8]) -> (r: Option<TrieValue>)
    ensures
        entries_of(*final(t)) == entries_of(*old(t)).remove(key@),
        match r {
            Some(o) => entries_of(*old(t)).contains_key(key@) && o@ == entries_of(*old(t))[key@],
            None => !entries_of(*old(t)).contains_key(key@),
        },
{
    t.remove(key)
}

/// Relies on `qp_trie::Trie::count`: the number of stored keys.
#[verifier::external_body]
fn entry_count(t: &Entries) -> (r: usize)
    ensures
        r == entries_of(*t).dom().len(),
{
    t.count()
}

/// Relies on `qp_trie::Trie::iter_prefix`: every stored key that starts with `prefix`.
#[verifier::external_body]
fn keys_with_prefix(t: &Entries, prefix: &[u8]) -> (r: Vec<Vec<u8>>)
    ensures
        forall|j: int|
            0 <= j < r@.len() ==> entries_of(*t).contains_key(#[trigger] r@[j]@) && starts_with(
                r@[j]@,
                prefix@,
            ),
        forall|x: Seq<u8>|
            #[trigger] entries_of(*t).contains_key(x) && starts_with(x, prefix@) ==> exists|j: int|
                0 <= j < r@.len() && #[trigger] r@[j]@ == x,
{
    t.iter_prefix(prefix).map(|(k, _)| k.clone()).collect()
}

/// The backing store: node values keyed by reversed domain bytes.
pub type Entries = QpTrie<Vec<u8>, TrieValue>;

/// The value of a node: bit `i` of `block_source` is set iff block list `i`
/// holds the domain; `allowed` overrides any block.
pub struct TrieValue {
    pub block_source: BitVec,
    pub allowed: bool,
}

impl View for TrieValue {
    type V = (Seq<bool>, bool);

    open spec fn view(&self) -> (Seq<bool>, bool) {
        (bits_of(self.block_source), self.allowed)
    }
}

impl TrieValue {
    /// The number of list bits the node carries.
    pub fn source_len(&self) -> (r: usize)
        ensures
            r == self@.0.len(),
    {
        bits_len(&self.block_source)
    }

    /// Whether block list `i` holds the node.
    pub fn source(&self, i: usize) -> (r: bool)
        requires
            i < self@.0.len(),
        ensures
            r == self@.0[i as int],
    {
        match bits_get(&self.block_source, i) {
            Some(b) => b,
            None => false,
        }
    }
}

/// `x` begins with `p`.
pub open spec fn starts_with(x: Seq<u8>, p: Seq<u8>) -> bool {
    p.len() <= x.len() && x.subrange(0, p.len() as int) == p
}

/// The trie key of a domain: its UTF-8 bytes, reversed.
pub open spec fn domain_key(d: Seq<char>) -> Seq<u8> {
    encode_utf8(d).reverse()
}

/// Some bit of `s` is set.
pub open spec fn any_set(s: Seq<bool>) -> bool {
    exists|i: int| 0 <= i < s.len() && s[i]
}

/// Some block list holds the node.
pub open spec fn has_source(v: (Seq<bool>, bool)) -> bool {
    any_set(v.0)
}

/// The node blocks its own name: some list holds it and no allow overrides it.
pub open spec fn blocks(v: (Seq<bool>, bool)) -> bool {
    has_source(v) && !v.1
}

/// The keys of the nodes that some block list holds.
pub open spec fn blocked_keys(m: Map<Seq<u8>, (Seq<bool>, bool)>) -> Set<Seq<u8>> {
    m.dom().filter(|k: Seq<u8>| has_source(m[k]))
}

/// `s` with bit `i` set, grown with clear bits where it is shorter.
pub open spec fn with_bit(s: Seq<bool>, i: nat) -> Seq<bool> {
    if i < s.len() {
        s.update(i as int, true)
    } else {
        s + Seq::new((i - s.len()) as nat, |_j: int| false).push(true)
    }
}

/// The contents after block list `i` inserts domain `d`.
pub open spec fn inserted(m: Map<Seq<u8>, (Seq<bool>, bool)>, d: Seq<char>, i: nat) -> Map<
    Seq<u8>,
    (Seq<bool>, bool),
> {
    let k = domain_key(d);
    if d.len() == 0 {
        m
    } else if m.contains_key(k) {
        m.insert(k, (with_bit(m[k].0, i), m[k].1))
    } else {
        m.insert(k, (with_bit(Seq::empty(), i), false))
    }
}

/// Block list `i` already holds domain `d`.
pub open spec fn listed_by(m: Map<Seq<u8>, (Seq<bool>, bool)>, d: Seq<char>, i: nat) -> bool {
    let k = domain_key(d);
    &&& d.len() > 0
    &&& m.contains_key(k)
    &&& i < m[k].0.len()
    &&& m[k].0[i as int]
}

/// Position `p` of key `k` ends a label: the end of the key, or a `.`.
pub open spec fn is_boundary(k: Seq<u8>, p: int) -> bool {
    0 <= p <= k.len() && (p == k.len() || k[p] == 46u8)
}

/// The verdict of the deepest node among the label boundaries of `k` below `n`;
/// not blocked where there is none.
pub open spec fn deepest_verdict(m: Map<Seq<u8>, (Seq<bool>, bool)>, k: Seq<u8>, n: nat) -> bool
    decreases n,
{
    if n == 0 {
        false
    } else {
        let p = (n - 1) as nat;
        if is_boundary(k, p as int) && m.contains_key(k.subrange(0, p as int)) {
            blocks(m[k.subrange(0, p as int)])
        } else {
            deepest_verdict(m, k, p)
        }
    }
}

/// Whether `d` is blocked: by its own node, or with `include_subdomains` by its
/// deepest ancestor node.
pub open spec fn is_blocked_in(m: Map<Seq<u8>, (Seq<bool>, bool)>, d: Seq<char>, include_subdomains: bool) -> bool {
    let k = domain_key(d);
    if include_subdomains {
        deepest_verdict(m, k, k.len() + 1)
    } else {
        m.contains_key(k) && blocks(m[k])
    }
}

/// Key `x` lies strictly below key `k`, past a label boundary.
pub open spec fn below(k: Seq<u8>, x: Seq<u8>) -> bool {
    starts_with(x, k.push(46u8))
}

/// The contents after `d` is allowed, with its whole subtree where `include_subdomains`.
pub open spec fn allowed_in(m: Map<Seq<u8>, (Seq<bool>, bool)>, d: Seq<char>, include_subdomains: bool) -> Map<
    Seq<u8>,
    (Seq<bool>, bool),
> {
    let k = domain_key(d);
    let m1 = if include_subdomains {
        Map::new(
            |x: Seq<u8>| m.contains_key(x),
            |x: Seq<u8>|
                if below(k, x) {
                    (m[x].0, true)
                } else {
                    m[x]
                },
        )
    } else {
        m
    };
    if m1.contains_key(k) {
        m1.insert(k, (m1[k].0, true))
    } else {
        m1.insert(k, (Seq::empty(), true))
    }
}

/// The nodes at the label boundaries of `k` below `n`, TLD first, each with the
/// byte offset in the domain at which its suffix starts.
pub open spec fn hits_below(m: Map<Seq<u8>, (Seq<bool>, bool)>, k: Seq<u8>, n: nat) -> Seq<
    ((Seq<bool>, bool), nat),
>
    decreases n,
{
    if n == 0 {
        seq![]
    } else {
        let p = (n - 1) as nat;
        let rest = hits_below(m, k, p);
        if is_boundary(k, p as int) && m.contains_key(k.subrange(0, p as int)) {
            rest.push((m[k.subrange(0, p as int)], (k.len() - p) as nat))
        } else {
            rest
        }
    }
}

/// The hits of a query, as values.
pub open spec fn hits_view<'a>(s: Seq<(&'a TrieValue, usize)>) -> Seq<((Seq<bool>, bool), nat)> {
    s.map_values(|h: (&'a TrieValue, usize)| (h.0@, h.1 as nat))
}

/// A domain is empty iff its encoding is.
pub proof fn lemma_encode_empty(d: Seq<char>)
    ensures
        (encode_utf8(d).len() == 0) == (d.len() == 0),
{
    if d.len() > 0 {
        assert(encode_utf8(d) == vstd::utf8::encode_scalar(d[0] as u32) + encode_utf8(d.drop_first()));
    }
}

proof fn lemma_blocked_keys_insert(m: Map<Seq<u8>, (Seq<bool>, bool)>, k: Seq<u8>, v: (Seq<bool>, bool))
    ensures
        blocked_keys(m.insert(k, v)) == (if has_source(v) {
            blocked_keys(m).insert(k)
        } else {
            blocked_keys(m).remove(k)
        }),
{
    let m2 = m.insert(k, v);
    if has_source(v) {
        assert(blocked_keys(m2) =~= blocked_keys(m).insert(k));
    } else {
        assert(blocked_keys(m2) =~= blocked_keys(m).remove(k));
    }
}

proof fn lemma_blocked_keys_same(m: Map<Seq<u8>, (Seq<bool>, bool)>, m2: Map<Seq<u8>, (Seq<bool>, bool)>)
    requires
        forall|x: Seq<u8>| #[trigger] m.contains_key(x) ==> m2.contains_key(x) && m2[x].0 == m[x].0,
        forall|x: Seq<u8>|
            #[trigger] m2.contains_key(x) && !m.contains_key(x) ==> m2[x].0 == Seq::<bool>::empty(),
    ensures
        blocked_keys(m2) == blocked_keys(m),
{
    assert(blocked_keys(m2) =~= blocked_keys(m));
}

/// The UTF-8 encoding of a concatenation is the concatenation of the encodings.
pub proof fn lemma_encode_concat(a: Seq<char>, b: Seq<char>)
    ensures
        encode_utf8(a + b) == encode_utf8(a) + encode_utf8(b),
    decreases a.len(),
{
    if a.len() == 0 {
        assert(a + b =~= b);
        assert(encode_utf8(a) =~= Seq::<u8>::empty());
        assert(encode_utf8(a) + encode_utf8(b) =~= encode_utf8(b));
    } else {
        lemma_encode_concat(a.drop_first(), b);
        assert((a + b).drop_first() =~= a.drop_first() + b);
        assert((a + b)[0] == a[0]);
        assert(encode_utf8(a + b) =~= encode_utf8(a) + encode_utf8(b));
    }
}

/// The key of the name `s.d` is the key of `d`, a `.`, and the key of `s`.
pub proof fn lemma_key_of_subdomain(s: Seq<char>, d: Seq<char>)
    ensures
        domain_key(s + seq!['.'] + d) == domain_key(d).push(46u8) + domain_key(s),
{
    let dot = seq!['.'];
    lemma_encode_concat(s + dot, d);
    lemma_encode_concat(s, dot);
    assert(dot.drop_first() =~= Seq::<char>::empty());
    assert(dot[0] as u32 == 46u32);
    assert(vstd::utf8::leading_byte_width_1(46u32) == 46u8) by (bit_vector);
    assert(encode_utf8(dot) =~= vstd::utf8::encode_scalar(46u32) + encode_utf8(dot.drop_first()));
    assert(encode_utf8(dot) =~= seq![46u8]);
    let x = encode_utf8(s);
    let y = encode_utf8(d);
    assert((x + seq![46u8] + y).reverse() =~= y.reverse().push(46u8) + x.reverse());
}

/// Distinct domains have distinct keys.
pub proof fn lemma_key_injective(d1: Seq<char>, d2: Seq<char>)
    requires
        d1 != d2,
    ensures
        domain_key(d1) != domain_key(d2),
{
    broadcast use vstd::utf8::encode_utf8_decode_utf8;

    if domain_key(d1) == domain_key(d2) {
        let e1 = encode_utf8(d1);
        let e2 = encode_utf8(d2);
        assert(e1.reverse().reverse() =~= e1);
        assert(e2.reverse().reverse() =~= e2);
        assert(decode_utf8_of(e1) == d1);
    }
}

spec fn decode_utf8_of(b: Seq<u8>) -> Seq<char> {
    vstd::utf8::decode_utf8(b)
}

/// A second insert of a domain by the same list reports the domain as already
/// held by that list, and leaves the number of blocked nodes as it was.
pub proof fn lemma_insert_twice(m: Map<Seq<u8>, (Seq<bool>, bool)>, d: Seq<char>, i: nat)
    requires
        m.dom().finite(),
        d.len() > 0,
    ensures
        listed_by(inserted(m, d, i), d, i),
        inserted(inserted(m, d, i), d, i) == inserted(m, d, i),
        blocked_keys(inserted(inserted(m, d, i), d, i)).len() == blocked_keys(inserted(m, d, i)).len(),
{
    let k = domain_key(d);
    let m1 = inserted(m, d, i);
    let s = if m.contains_key(k) { m[k].0 } else { Seq::<bool>::empty() };
    assert(m1[k].0 == with_bit(s, i));
    assert(with_bit(s, i)[i as int]);
    assert(with_bit(with_bit(s, i), i) =~= with_bit(s, i));
    assert(inserted(m1, d, i) =~= m1);
}

/// After one list inserts a domain into an empty trie, every other domain is
/// unblocked by exact match.
pub proof fn lemma_other_domain_not_blocked(d1: Seq<char>, d2: Seq<char>)
    requires
        d1 != d2,
    ensures
        !is_blocked_in(inserted(Map::empty(), d1, 0), d2, false),
{
    lemma_key_injective(d1, d2);
}

proof fn lemma_deepest_single(m: Map<Seq<u8>, (Seq<bool>, bool)>, key: Seq<u8>, k: Seq<u8>, n: nat)
    requires
        m.dom() == set![k],
        k.len() < n <= key.len() + 1,
        is_boundary(key, k.len() as int),
        key.subrange(0, k.len() as int) == k,
    ensures
        deepest_verdict(m, key, n) == blocks(m[k]),
    decreases n,
{
    let p = (n - 1) as nat;
    if p > k.len() {
        assert(key.subrange(0, p as int).len() != k.len());
        assert(!m.contains_key(key.subrange(0, p as int)));
        lemma_deepest_single(m, key, k, p);
    } else {
        assert(m.contains_key(k));
    }
}

/// After one list inserts `d` into an empty trie, a name below it (`s.d`) is
/// blocked when subdomains are included, and not by exact match.
pub proof fn lemma_subdomain_blocked(d: Seq<char>, s: Seq<char>)
    requires
        d.len() > 0,
    ensures
        is_blocked_in(inserted(Map::empty(), d, 0), s + seq!['.'] + d, true),
        !is_blocked_in(inserted(Map::empty(), d, 0), s + seq!['.'] + d, false),
{
    let m = inserted(Map::empty(), d, 0);
    let k = domain_key(d);
    let key = domain_key(s + seq!['.'] + d);
    lemma_key_of_subdomain(s, d);
    assert(m.dom() =~= set![k]);
    assert(key.subrange(0, k.len() as int) =~= k);
    assert(key[k.len() as int] == 46u8);
    assert(with_bit(Seq::<bool>::empty(), 0)[0]);
    assert(blocks(m[k]));
    lemma_deepest_single(m, key, k, key.len() + 1);
    assert(key.len() != k.len());
}

/// Once allowed, a domain is not blocked, with or without subdomains, whatever
/// the trie held before.
pub proof fn lemma_allowed_not_blocked(
    m: Map<Seq<u8>, (Seq<bool>, bool)>,
    d: Seq<char>,
    include_subdomains: bool,
)
    ensures
        !is_blocked_in(allowed_in(m, d, false), d, include_subdomains),
{
    let k = domain_key(d);
    let m1 = allowed_in(m, d, false);
    assert(k.subrange(0, k.len() as int) =~= k);
    assert(m1.contains_key(k) && m1[k].1);
}

/// Allowing a domain with its subtree unblocks a name below it that the same
/// list inserted.
pub proof fn lemma_allow_subtree(m: Map<Seq<u8>, (Seq<bool>, bool)>, d: Seq<char>, s: Seq<char>)
    ensures
        !is_blocked_in(
            allowed_in(inserted(inserted(m, d, 0), s + seq!['.'] + d, 0), d, true),
            s + seq!['.'] + d,
            true,
        ),
{
    let sub = s + seq!['.'] + d;
    let k = domain_key(d);
    let key = domain_key(sub);
    lemma_key_of_subdomain(s, d);
    lemma_encode_empty(sub);
    assert(sub.len() > 0) by {
        assert(sub[s.len() as int] == '.');
    }
    let m2 = inserted(inserted(m, d, 0), sub, 0);
    assert(m2.contains_key(key));
    assert(below(k, key)) by {
        assert(key.subrange(0, k.len() + 1 as int) =~= k.push(46u8));
    }
    let m3 = allowed_in(m2, d, true);
    assert(key != k);
    assert(m3.contains_key(key) && m3[key].1);
    assert(key.subrange(0, key.len() as int) =~= key);
}

/// Allowing a domain with its subtree, in a trie that never held it, never makes
/// it blocked.
pub proof fn lemma_allow_unseen(m: Map<Seq<u8>, (Seq<bool>, bool)>, d: Seq<char>, include_subdomains: bool)
    requires
        !m.contains_key(domain_key(d)),
    ensures
        !is_blocked_in(allowed_in(m, d, true), d, include_subdomains),
{
    let k = domain_key(d);
    let m1 = allowed_in(m, d, true);
    assert(k.subrange(0, k.len() as int) =~= k);
    assert(m1.contains_key(k) && m1[k].1);
}

/// The inserts of a sequence of domains by list `i`, in order.
pub open spec fn insert_all(m: Map<Seq<u8>, (Seq<bool>, bool)>, ds: Seq<Seq<char>>, i: nat) -> Map<
    Seq<u8>,
    (Seq<bool>, bool),
>
    decreases ds.len(),
{
    if ds.len() == 0 {
        m
    } else {
        inserted(insert_all(m, ds.drop_last(), i), ds.last(), i)
    }
}

/// How many of the inserts of `ds` by list `i` found the domain not yet held by
/// that list.
pub open spec fn novel_count(m: Map<Seq<u8>, (Seq<bool>, bool)>, ds: Seq<Seq<char>>, i: nat) -> nat
    decreases ds.len(),
{
    if ds.len() == 0 {
        0
    } else {
        novel_count(m, ds.drop_last(), i) + if listed_by(insert_all(m, ds.drop_last(), i), ds.last(), i) {
            0nat
        } else {
            1nat
        }
    }
}

/// The keys of the non-empty domains of `ds`.
pub open spec fn key_set(ds: Seq<Seq<char>>) -> Set<Seq<u8>> {
    Set::new(|k: Seq<u8>| exists|j: int| 0 <= j < ds.len() && ds[j].len() > 0 && domain_key(ds[j]) == k)
}

/// Inserting a list adds exactly the keys of its non-empty domains to the
/// blocked nodes.
pub proof fn lemma_insert_all_keys(m: Map<Seq<u8>, (Seq<bool>, bool)>, ds: Seq<Seq<char>>, i: nat)
    ensures
        blocked_keys(insert_all(m, ds, i)) == blocked_keys(m).union(key_set(ds)),
    decreases ds.len(),
{
    if ds.len() == 0 {
        assert(key_set(ds) =~= Set::empty());
        assert(blocked_keys(m).union(key_set(ds)) =~= blocked_keys(m));
    } else {
        let init = ds.drop_last();
        let d = ds.last();
        let m1 = insert_all(m, init, i);
        lemma_insert_all_keys(m, init, i);
        if d.len() > 0 {
            let k = domain_key(d);
            let v = if m1.contains_key(k) {
                (with_bit(m1[k].0, i), m1[k].1)
            } else {
                (with_bit(Seq::empty(), i), false)
            };
            assert(v.0[i as int]);
            lemma_blocked_keys_insert(m1, k, v);
            assert(key_set(ds) =~= key_set(init).insert(k)) by {
                assert forall|x: Seq<u8>| key_set(ds).contains(x) implies key_set(init).insert(k).contains(x) by {
                    let j = choose|j: int| 0 <= j < ds.len() && ds[j].len() > 0 && domain_key(ds[j]) == x;
                    if j < init.len() {
                        assert(init[j] == ds[j]);
                    }
                }
                assert forall|x: Seq<u8>| key_set(init).contains(x) implies key_set(ds).contains(x) by {
                    let j = choose|j: int| 0 <= j < init.len() && init[j].len() > 0 && domain_key(init[j]) == x;
                    assert(init[j] == ds[j]);
                }
                assert(ds[ds.len() - 1] == d);
            }
        } else {
            assert(key_set(ds) =~= key_set(init)) by {
                assert forall|x: Seq<u8>| key_set(ds).contains(x) implies key_set(init).contains(x) by {
                    let j = choose|j: int| 0 <= j < ds.len() && ds[j].len() > 0 && domain_key(ds[j]) == x;
                    assert(j < init.len());
                    assert(init[j] == ds[j]);
                }
                assert forall|x: Seq<u8>| key_set(init).contains(x) implies key_set(ds).contains(x) by {
                    let j = choose|j: int| 0 <= j < init.len() && init[j].len() > 0 && domain_key(init[j]) == x;
                    assert(init[j] == ds[j]);
                }
            }
        }
        assert(blocked_keys(insert_all(m, ds, i)) =~= blocked_keys(m).union(key_set(ds)));
    }
}

/// Allowing never changes which nodes some block list holds.
pub proof fn lemma_allow_keeps_blocked(m: Map<Seq<u8>, (Seq<bool>, bool)>, d: Seq<char>, include_subdomains: bool)
    ensures
        blocked_keys(allowed_in(m, d, include_subdomains)) == blocked_keys(m),
{
    let k = domain_key(d);
    let m2 = allowed_in(m, d, include_subdomains);
    assert(forall|x: Seq<u8>| #[trigger] m.contains_key(x) ==> m2.contains_key(x) && m2[x].0 == m[x].0);
    lemma_blocked_keys_same(m, m2);
}

/// Builds the trie key of `domain`.
fn key_of(domain: &str) -> (r: Vec<u8>)
    ensures
        r@ == domain_key(domain@),
{
    let bytes = domain.as_bytes();
    let n = bytes.len();
    let mut key: Vec<u8> = Vec::new();
    let mut i: usize = n;
    while i > 0
        invariant
            i <= n,
            n == bytes@.len(),
            bytes@ == encode_utf8(domain@),
            key@.len() == n - i,
            forall|j: int| 0 <= j < key@.len() ==> key@[j] == bytes@[n - 1 - j],
        decreases i,
    {
        i = i - 1;
        key.push(bytes[i]);
    }
    assert(key@ =~= bytes@.reverse());
    key
}

/// A reversed-domain trie with per-list provenance and allow flags.
pub struct Trie {
    entries: Entries,
    /// The number of nodes that some block list holds.
    blocked: usize,
}

impl View for Trie {
    type V = Map<Seq<u8>, (Seq<bool>, bool)>;

    closed spec fn view(&self) -> Map<Seq<u8>, (Seq<bool>, bool)> {
        entries_of(self.entries)
    }
}

impl Trie {
    /// The trie is well formed: it holds finitely many nodes, and its count of
    /// blocked nodes is right.
    pub closed spec fn wf(&self) -> bool {
        &&& self@.dom().finite()
        &&& self.blocked == blocked_keys(self@).len()
    }

    pub fn new() -> (r: Trie)
        ensures
            r.wf(),
            r@ == Map::<Seq<u8>, (Seq<bool>, bool)>::empty(),
    {
        let r = Trie { entries: entries_new(), blocked: 0 };
        assert(r@ =~= Map::<Seq<u8>, (Seq<bool>, bool)>::empty());
        assert(blocked_keys(r@) =~= Set::empty());
        r
    }

    /// Adds `domain` as held by block list `list_info_index`. Returns whether that
    /// list already held it; an empty domain is ignored.
    pub fn insert(&mut self, domain: &str, list_info_index: usize) -> (r: bool)
        requires
            old(self).wf(),
            list_info_index < usize::MAX,
        ensures
            final(self).wf(),
            final(self)@ == inserted(old(self)@, domain@, list_info_index as nat),
            r == listed_by(old(self)@, domain@, list_info_index as nat),
    {
        let ghost m0 = self@;
        let ghost i = list_info_index as nat;
        proof {
            lemma_encode_empty(domain@);
        }
        let key = key_of(domain);
        let ghost k = key@;
        if key.len() == 0 {
            assert(domain@.len() == 0);
            return false;
        }
        let mut fresh = TrieValue { block_source: bits_filled(list_info_index + 1, false), allowed: false };
        bits_set(&mut fresh.block_source, list_info_index, true);
        assert(bits_of(fresh.block_source) =~= with_bit(Seq::empty(), i));
        let previous = entry_insert(&mut self.entries, key.clone(), fresh);
        match previous {
            None => {
                proof {
                    assert(self@ == inserted(m0, domain@, i));
                    assert(has_source(self@[k])) by {
                        assert(self@[k].0[i as int]);
                    }
                    lemma_blocked_keys_insert(m0, k, self@[k]);
                    assert(!blocked_keys(m0).contains(k));
                    vstd::set_lib::lemma_len_subset(blocked_keys(self@), self@.dom());
                }
                let total = entry_count(&self.entries);
                self.blocked = self.blocked + 1;
                false
            },
            Some(mut value) => {
                let had_source = bits_any(&value.block_source);
                let was = match bits_get(&value.block_source, list_info_index) {
                    Some(b) => b,
                    None => false,
                };
                let len = bits_len(&value.block_source);
                if list_info_index >= len {
                    bits_grow(&mut value.block_source, list_info_index + 1 - len, false);
                }
                bits_set(&mut value.block_source, list_info_index, true);
                assert(bits_of(value.block_source) =~= with_bit(m0[k].0, i));
                entry_insert(&mut self.entries, key, value);
                proof {
                    assert(self@ =~= inserted(m0, domain@, i));
                    assert(has_source(self@[k])) by {
                        assert(self@[k].0[i as int]);
                    }
                    lemma_blocked_keys_insert(m0, k, self@[k]);
                    vstd::set_lib::lemma_len_subset(blocked_keys(self@), self@.dom());
                }
                if !had_source {
                    let total = entry_count(&self.entries);
                    self.blocked = self.blocked + 1;
                } else {
                    assert(blocked_keys(self@) =~= blocked_keys(m0));
                }
                was
            },
        }
    }

    /// Whether `domain` is blocked: by its own node, or with `include_subdomains`
    /// by the deepest of its ancestors that the trie holds.
    pub fn blocked(&self, domain: &str, include_subdomains: bool) -> (r: bool)
        requires
            self.wf(),
        ensures
            r == is_blocked_in(self@, domain@, include_subdomains),
    {
        let key = key_of(domain);
        if include_subdomains {
            let n = key.len();
            let mut prefix: Vec<u8> = Vec::new();
            let mut verdict = false;
            let mut p: usize = 0;
            while p < n
                invariant
                    p <= n,
                    n == key@.len(),
                    prefix@ == key@.subrange(0, p as int),
                    verdict == deepest_verdict(self@, key@, p as nat),
                decreases n - p,
            {
                if key[p] == 46u8 {
                    match entry_get(&self.entries, prefix.as_slice()) {
                        Some(v) => {
                            verdict = bits_any(&v.block_source) && !v.allowed;
                        },
                        None => {},
                    }
                }
                assert(verdict == deepest_verdict(self@, key@, (p + 1) as nat));
                prefix.push(key[p]);
                p = p + 1;
                assert(prefix@ =~= key@.subrange(0, p as int));
            }
            assert(prefix@ =~= key@);
            match entry_get(&self.entries, prefix.as_slice()) {
                Some(v) => {
                    verdict = bits_any(&v.block_source) && !v.allowed;
                },
                None => {},
            }
            assert(verdict == deepest_verdict(self@, key@, (n + 1) as nat));
            verdict
        } else {
            match entry_get(&self.entries, key.as_slice()) {
                Some(v) => bits_any(&v.block_source) && !v.allowed,
                None => false,
            }
        }
    }

    /// Every node at a label boundary of `domain`, TLD first, with the byte offset
    /// in `domain` at which the matching suffix starts (0: the whole name).
    pub fn query<'a>(&'a self, domain: &str) -> (r: Vec<(&'a TrieValue, usize)>)
        requires
            self.wf(),
        ensures
            hits_view(r@) == hits_below(self@, domain_key(domain@), domain_key(domain@).len() + 1),
    {
        let key = key_of(domain);
        let n = key.len();
        let mut hits: Vec<(&'a TrieValue, usize)> = Vec::new();
        let mut prefix: Vec<u8> = Vec::new();
        let mut p: usize = 0;
        while p < n
            invariant
                p <= n,
                n == key@.len(),
                prefix@ == key@.subrange(0, p as int),
                hits_view(hits@) == hits_below(self@, key@, p as nat),
            decreases n - p,
        {
            if key[p] == 46u8 {
                match entry_get(&self.entries, prefix.as_slice()) {
                    Some(v) => {
                        hits.push((v, n - p));
                    },
                    None => {},
                }
            }
            proof {
                assert(hits_view(hits@) =~= hits_below(self@, key@, (p + 1) as nat));
            }
            prefix.push(key[p]);
            p = p + 1;
            assert(prefix@ =~= key@.subrange(0, p as int));
        }
        match entry_get(&self.entries, prefix.as_slice()) {
            Some(v) => {
                hits.push((v, 0));
            },
            None => {},
        }
        assert(hits_view(hits@) =~= hits_below(self@, key@, (n + 1) as nat));
        hits
    }

    /// Allows `domain`, creating a node without sources where there is none; with
    /// `include_subdomains` also every node below it.
    pub fn allow(&mut self, domain: &str, include_subdomains: bool)
        requires
            old(self).wf(),
        ensures
            final(self).wf(),
            final(self)@ == allowed_in(old(self)@, domain@, include_subdomains),
    {
        let ghost m0 = self@;
        let mut key = key_of(domain);
        let ghost k = key@;
        let ghost m1 = if include_subdomains {
            Map::new(
                |x: Seq<u8>| m0.contains_key(x),
                |x: Seq<u8>|
                    if below(k, x) {
                        (m0[x].0, true)
                    } else {
                        m0[x]
                    },
            )
        } else {
            m0
        };
        if include_subdomains {
            key.push(46u8);
            let under = keys_with_prefix(&self.entries, key.as_slice());
            let mut j: usize = 0;
            while j < under.len()
                invariant
                    j <= under@.len(),
                    self.blocked == old(self).blocked,
                    self@.dom() == m0.dom(),
                    forall|j2: int|
                        0 <= j2 < under@.len() ==> m0.contains_key(#[trigger] under@[j2]@) && below(
                            k,
                            under@[j2]@,
                        ),
                    forall|x: Seq<u8>|
                        #[trigger] m0.contains_key(x) && below(k, x) ==> exists|j2: int|
                            0 <= j2 < under@.len() && #[trigger] under@[j2]@ == x,
                    forall|x: Seq<u8>|
                        #[trigger] self@.contains_key(x) ==> self@[x] == (if below(k, x) && exists|j2: int|
                            0 <= j2 < j && under@[j2]@ == x {
                            (m0[x].0, true)
                        } else {
                            m0[x]
                        }),
                decreases under@.len() - j,
            {
                let taken = entry_remove(&mut self.entries, under[j].as_slice());
                match taken {
                    Some(mut value) => {
                        value.allowed = true;
                        entry_insert(&mut self.entries, under[j].clone(), value);
                    },
                    None => {},
                }
                j = j + 1;
            }
            key.pop();
            assert(self@ =~= m1);
        }
        assert(key@ == k);
        let taken = entry_remove(&mut self.entries, key.as_slice());
        match taken {
            Some(mut value) => {
                value.allowed = true;
                entry_insert(&mut self.entries, key, value);
            },
            None => {
                entry_insert(&mut self.entries, key, TrieValue { block_source: bits_empty(), allowed: true });
            },
        }
        proof {
            assert(m1.dom() =~= m0.dom());
            assert(self@ =~= allowed_in(m0, domain@, include_subdomains));
            assert(self@.dom() =~= m0.dom().insert(k));
            lemma_blocked_keys_same(m0, self@);
        }
    }

    /// A hook after a build; the trie holds nothing to release.
    pub fn shrink_to_fit(&mut self)
        requires
            old(self).wf(),
        ensures
            final(self).wf(),
            final(self)@ == old(self)@,
    {
    }

    /// The number of nodes that some block list holds (allow-only nodes excluded).
    pub fn len(&self) -> (r: usize)
        requires
            self.wf(),
        ensures
            r == blocked_keys(self@).len(),
    {
        self.blocked
    }
}

} // verus!
