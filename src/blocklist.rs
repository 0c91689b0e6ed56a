//! The blocklist engine: a snapshot of the trie with the metadata of every
//! configured list, built list by list off-line and only read once published.

use crate::parser::{
    entry_domains, line_ok, lines, list_domains, list_ok, report_text, Blocklist,
    PARSE_MESSAGE,
};
use crate::trie::{
    allowed_in, blocked_keys, domain_key, hits_below, insert_all, key_set, lemma_allow_keeps_blocked,
    lemma_insert_all_keys, novel_count, Trie, TrieValue,
};
use vstd::prelude::*;
use vstd::slice::slice_subrange;
use vstd::utf8::{decode_utf8, encode_utf8, valid_utf8};

verus! {

/// The kind of a configured list.
#[derive(Clone, Copy, Debug, PartialEq, Eq, Structural)]
pub enum ListType {
    Block,
    Allow,
}

/// A list that loaded.
pub struct ListInfo {
    /// For a block list, the domains it added that it had not added before; for
    /// an allow list, its entries.
    pub len: u64,
    pub url: String,
    /// Set where part of the loading failed (for example a download, with the
    /// cached copy used instead).
    pub errors: Option<String>,
}

/// A list that contributed nothing.
pub struct FailedList {
    pub url: String,
    pub tipe: ListType,
    /// Why loading the list failed.
    pub errors: String,
}

/// A list that loaded without errors.
pub struct OkList {
    pub len: u64,
    pub url: String,
    pub tipe: ListType,
}

/// A list whose update failed, whose older copy is still used.
pub struct UpdateFailedList {
    pub len: u64,
    pub url: String,
    pub tipe: ListType,
    pub errors: String,
}

/// The state of one list, as the admin interface shows it.
pub enum List {
    Loaded(OkList),
    UpdateFailed(UpdateFailedList),
    Error(FailedList),
}

/// The lists that hold a matched suffix, and whether it is allowed.
pub struct QueryInfo {
    pub lists: Vec<String>,
    pub allowed: bool,
}

/// Entry `d` of an allow list: `*.name` allows `name` with its subtree, any
/// other entry the name alone.
pub open spec fn allow_entry(m: Map<Seq<u8>, (Seq<bool>, bool)>, d: Seq<char>) -> Map<
    Seq<u8>,
    (Seq<bool>, bool),
> {
    if d.len() >= 2 && d[0] == '*' && d[1] == '.' {
        allowed_in(m, d.subrange(2, d.len() as int), true)
    } else {
        allowed_in(m, d, false)
    }
}

/// The entries of an allow list, applied in order.
pub open spec fn allow_all(m: Map<Seq<u8>, (Seq<bool>, bool)>, ds: Seq<Seq<char>>) -> Map<
    Seq<u8>,
    (Seq<bool>, bool),
>
    decreases ds.len(),
{
    if ds.len() == 0 {
        m
    } else {
        allow_entry(allow_all(m, ds.drop_last()), ds.last())
    }
}

/// How a loaded list is shown.
pub open spec fn describes(l: List, info: ListInfo, t: ListType) -> bool {
    match info.errors {
        None => l matches List::Loaded(o) && o.len == info.len && o.url@ == info.url@ && o.tipe == t,
        Some(e) => l matches List::UpdateFailed(u) && u.len == info.len && u.url@ == info.url@
            && u.tipe == t && u.errors@ == e@,
    }
}

/// The URLs of the block lists whose bit is set, in list order.
pub open spec fn source_urls(bits: Seq<bool>, infos: Seq<ListInfo>) -> Seq<Seq<char>>
    decreases bits.len(),
{
    if bits.len() == 0 {
        seq![]
    } else {
        source_urls(bits.drop_last(), infos) + if bits.last() {
            seq![infos[bits.len() - 1].url@]
        } else {
            seq![]
        }
    }
}

/// The text of `d` from byte offset `o` on.
pub open spec fn byte_suffix(d: Seq<char>, o: nat) -> Seq<char> {
    decode_utf8(encode_utf8(d).subrange(o as int, encode_utf8(d).len() as int))
}

/// The record of a list that failed, appended last.
pub open spec fn failed_pushed(
    before: Seq<FailedList>,
    after: Seq<FailedList>,
    url: Seq<char>,
    t: ListType,
    errors: Seq<char>,
) -> bool {
    &&& after.len() == before.len() + 1
    &&& after.drop_last() == before
    &&& after.last().url@ == url
    &&& after.last().tipe == t
    &&& after.last().errors@ == errors
}

/// The errors of a list whose text does not parse: the errors so far and the
/// report of its first malformed line.
pub open spec fn parse_failure(errors: Seq<char>, url: Seq<char>, c: Seq<char>, out: Seq<char>) -> bool {
    exists|k: int, a: usize, b: usize|
        {
            &&& 0 <= k < lines(c).len()
            &&& !line_ok(#[trigger] lines(c)[k])
            &&& (forall|j: int| 0 <= j < k ==> line_ok(#[trigger] lines(c)[j]))
            &&& a <= b <= c.len()
            &&& c.subrange(a as int, b as int) == lines(c)[k]
            &&& out == errors + #[trigger] report_text(url, c, a, b, PARSE_MESSAGE@)
        }
}

/// The record of a list that loaded, appended last.
pub open spec fn info_pushed(
    before: Seq<ListInfo>,
    after: Seq<ListInfo>,
    url: Seq<char>,
    len: nat,
    errors: Seq<char>,
) -> bool {
    &&& after.len() == before.len() + 1
    &&& after.drop_last() == before
    &&& after.last().url@ == url
    &&& after.last().len == len
    &&& (after.last().errors is None <==> errors.len() == 0)
    &&& (after.last().errors matches Some(e) ==> e@ == errors)
}

/// How many of `lists` loaded.
pub open spec fn loaded_count(lists: Seq<Option<Seq<Seq<char>>>>) -> nat
    decreases lists.len(),
{
    if lists.len() == 0 {
        0
    } else {
        loaded_count(lists.drop_last()) + if lists.last() is Some {
            1nat
        } else {
            0nat
        }
    }
}

/// The contents after block lists are loaded in order: each list that loaded
/// (`Some`, with its domains) inserts them under the next list index; one that
/// failed adds nothing.
pub open spec fn load_blocks(m: Map<Seq<u8>, (Seq<bool>, bool)>, lists: Seq<Option<Seq<Seq<char>>>>) -> Map<
    Seq<u8>,
    (Seq<bool>, bool),
>
    decreases lists.len(),
{
    if lists.len() == 0 {
        m
    } else {
        let prev = load_blocks(m, lists.drop_last());
        match lists.last() {
            Some(ds) => insert_all(prev, ds, loaded_count(lists.drop_last())),
            None => prev,
        }
    }
}

/// The keys of every non-empty domain of the lists that loaded.
pub open spec fn loaded_keys(lists: Seq<Option<Seq<Seq<char>>>>) -> Set<Seq<u8>>
    decreases lists.len(),
{
    if lists.len() == 0 {
        Set::empty()
    } else {
        loaded_keys(lists.drop_last()).union(
            match lists.last() {
                Some(ds) => key_set(ds),
                None => Set::empty(),
            },
        )
    }
}

/// The allow lists that loaded, applied in order.
pub open spec fn apply_allow_lists(m: Map<Seq<u8>, (Seq<bool>, bool)>, allows: Seq<Seq<Seq<char>>>) -> Map<
    Seq<u8>,
    (Seq<bool>, bool),
>
    decreases allows.len(),
{
    if allows.len() == 0 {
        m
    } else {
        allow_all(apply_allow_lists(m, allows.drop_last()), allows.last())
    }
}

proof fn lemma_load_blocks_keys(m: Map<Seq<u8>, (Seq<bool>, bool)>, lists: Seq<Option<Seq<Seq<char>>>>)
    ensures
        blocked_keys(load_blocks(m, lists)) == blocked_keys(m).union(loaded_keys(lists)),
    decreases lists.len(),
{
    if lists.len() == 0 {
        assert(blocked_keys(m).union(Set::empty()) =~= blocked_keys(m));
    } else {
        let init = lists.drop_last();
        lemma_load_blocks_keys(m, init);
        match lists.last() {
            Some(ds) => {
                lemma_insert_all_keys(load_blocks(m, init), ds, loaded_count(init));
                assert(blocked_keys(m).union(loaded_keys(init)).union(key_set(ds)) =~= blocked_keys(m).union(
                    loaded_keys(lists),
                ));
            },
            None => {
                assert(blocked_keys(m).union(loaded_keys(init)) =~= blocked_keys(m).union(loaded_keys(lists)));
            },
        }
    }
}

proof fn lemma_allow_all_keys(m: Map<Seq<u8>, (Seq<bool>, bool)>, ds: Seq<Seq<char>>)
    ensures
        blocked_keys(allow_all(m, ds)) == blocked_keys(m),
    decreases ds.len(),
{
    if ds.len() > 0 {
        lemma_allow_all_keys(m, ds.drop_last());
        let prev = allow_all(m, ds.drop_last());
        let d = ds.last();
        if d.len() >= 2 && d[0] == '*' && d[1] == '.' {
            lemma_allow_keeps_blocked(prev, d.subrange(2, d.len() as int), true);
        } else {
            lemma_allow_keeps_blocked(prev, d, false);
        }
    }
}

/// After a rebuild, the blocked nodes, whose number `len` gives, are exactly the
/// keys of the domains of the block lists that loaded: lists that failed add
/// none, a domain in several lists counts once, and allow lists (with the
/// allow-only nodes they create) change nothing.
pub proof fn lemma_rebuild_len(lists: Seq<Option<Seq<Seq<char>>>>, allows: Seq<Seq<Seq<char>>>)
    ensures
        blocked_keys(apply_allow_lists(load_blocks(Map::empty(), lists), allows)) == loaded_keys(lists),
    decreases allows.len(),
{
    if allows.len() == 0 {
        lemma_load_blocks_keys(Map::empty(), lists);
        assert(blocked_keys(Map::<Seq<u8>, (Seq<bool>, bool)>::empty()) =~= Set::empty());
        assert(Set::<Seq<u8>>::empty().union(loaded_keys(lists)) =~= loaded_keys(lists));
    } else {
        lemma_rebuild_len(lists, allows.drop_last());
        lemma_allow_all_keys(apply_allow_lists(load_blocks(Map::empty(), lists), allows.drop_last()), allows.last());
    }
}

/// Relies on `std::str::from_utf8`: valid UTF-8 reads as the text it encodes.
#[verifier::external_body]
fn str_from_utf8(b: &[u8]) -> (r: Option<&str>)
    ensures
        valid_utf8(b@) ==> r is Some && r->0@ == decode_utf8(b@),
{
    std::str::from_utf8(b).ok()
}

proof fn lemma_wide_bytes_high(x: u32)
    requires
        !vstd::utf8::has_width_1_encoding(x),
    ensures
        forall|i: int|
            0 <= i < vstd::utf8::encode_scalar(x).len() ==> #[trigger] vstd::utf8::encode_scalar(
                x,
            )[i] >= 0x80,
{
    let b2 = vstd::utf8::leading_byte_width_2(x);
    let b3 = vstd::utf8::leading_byte_width_3(x);
    let b4 = vstd::utf8::leading_byte_width_4(x);
    let c1 = vstd::utf8::last_continuation_byte(x);
    let c2 = vstd::utf8::second_last_continuation_byte(x);
    let c3 = vstd::utf8::third_last_continuation_byte(x);
    assert(0xC0u8 | ((x >> 6u32) & 0x1Fu32) as u8 >= 0x80u8) by (bit_vector);
    assert(0xE0u8 | ((x >> 12u32) & 0x0Fu32) as u8 >= 0x80u8) by (bit_vector);
    assert(0xF0u8 | ((x >> 18u32) & 0x7u32) as u8 >= 0x80u8) by (bit_vector);
    assert(0x80u8 | (x & 0x3Fu32) as u8 >= 0x80u8) by (bit_vector);
    assert(0x80u8 | ((x >> 6u32) & 0x3Fu32) as u8 >= 0x80u8) by (bit_vector);
    assert(0x80u8 | ((x >> 12u32) & 0x3Fu32) as u8 >= 0x80u8) by (bit_vector);
    assert(b2 >= 0x80 && b3 >= 0x80 && b4 >= 0x80 && c1 >= 0x80 && c2 >= 0x80 && c3 >= 0x80);
}

/// The bytes of a text after an ASCII byte are the encoding of the rest of it.
proof fn lemma_suffix_after_ascii(d: Seq<char>, o: int)
    requires
        0 <= o <= encode_utf8(d).len(),
        o == 0 || encode_utf8(d)[o - 1] < 0x80,
    ensures
        valid_utf8(encode_utf8(d).subrange(o, encode_utf8(d).len() as int)),
    decreases d.len(),
{
    broadcast use vstd::utf8::encode_utf8_valid_utf8;

    let e = encode_utf8(d);
    if o == 0 {
        assert(e.subrange(0, e.len() as int) =~= e);
    } else {
        let head = vstd::utf8::encode_scalar(d[0] as u32);
        let rest = encode_utf8(d.drop_first());
        assert(e == head + rest);
        if o < head.len() {
            lemma_wide_bytes_high(d[0] as u32);
            assert(e[o - 1] == head[o - 1]);
            assert(false);
        } else {
            lemma_suffix_after_ascii(d.drop_first(), o - head.len());
            assert(e.subrange(o, e.len() as int) =~= rest.subrange(o - head.len(), rest.len() as int));
        }
    }
}

proof fn lemma_hits_offsets(m: Map<Seq<u8>, (Seq<bool>, bool)>, k: Seq<u8>, n: nat)
    requires
        n <= k.len() + 1,
    ensures
        forall|j: int|
            0 <= j < hits_below(m, k, n).len() ==> {
                let o = (#[trigger] hits_below(m, k, n)[j]).1;
                &&& o <= k.len()
                &&& (o == 0 || k[k.len() - o] == 46u8)
                &&& m.contains_key(k.subrange(0, k.len() - o))
                &&& hits_below(m, k, n)[j].0 == m[k.subrange(0, k.len() - o)]
            },
    decreases n,
{
    if n > 0 {
        let p = (n - 1) as nat;
        lemma_hits_offsets(m, k, p);
        let prev = hits_below(m, k, p);
        let all = hits_below(m, k, n);
        assert forall|j: int| 0 <= j < all.len() implies {
            let o = (#[trigger] all[j]).1;
            &&& o <= k.len()
            &&& (o == 0 || k[k.len() - o] == 46u8)
            &&& m.contains_key(k.subrange(0, k.len() - o))
            &&& all[j].0 == m[k.subrange(0, k.len() - o)]
        } by {
            if j < prev.len() {
                assert(all[j] == prev[j]);
            } else {
                assert(k.len() - all[j].1 == p);
            }
        }
    }
}

/// One published state: the trie and the metadata of every list.
pub struct InnerBlockList {
    pub trie: Trie,
    /// The block lists that loaded; list `i` is bit `i` of the trie's sources.
    pub block_list_info: Vec<ListInfo>,
    /// The lists that could not be loaded.
    pub failed_lists: Vec<FailedList>,
    /// The allow lists that loaded.
    pub allow_list_info: Vec<ListInfo>,
    /// The keys of every domain that a loaded block list holds.
    pub listed: Ghost<Set<Seq<u8>>>,
}

impl InnerBlockList {
    pub open spec fn wf(&self) -> bool {
        &&& self.trie.wf()
        &&& blocked_keys(self.trie@) == self.listed@
        &&& forall|k: Seq<u8>|
            #[trigger] self.trie@.contains_key(k) ==> self.trie@[k].0.len()
                <= self.block_list_info@.len()
    }

    /// An empty snapshot, which blocks nothing.
    pub fn new() -> (r: InnerBlockList)
        ensures
            r.wf(),
            r.trie@ == Map::<Seq<u8>, (Seq<bool>, bool)>::empty(),
            r.listed@ == Set::<Seq<u8>>::empty(),
            r.block_list_info@.len() == 0,
            r.failed_lists@.len() == 0,
            r.allow_list_info@.len() == 0,
    {
        let trie = Trie::new();
        proof {
            assert(blocked_keys(trie@) =~= Set::<Seq<u8>>::empty());
        }
        InnerBlockList {
            trie,
            block_list_info: Vec::new(),
            failed_lists: Vec::new(),
            allow_list_info: Vec::new(),
            listed: Ghost(Set::empty()),
        }
    }

    /// Loads block list `url` as the next block list: `content` is its text where
    /// it could be had, `errors` what went wrong getting it. A list without text or
    /// that does not parse is recorded as failed; else every domain it yields is
    /// inserted with the list's index, and the list is recorded with the number of
    /// domains it held first.
    pub fn add_block_list(&mut self, url: &str, content: Option<String>, errors: String)
        requires
            old(self).wf(),
            old(self).block_list_info@.len() + 1 < usize::MAX,
        ensures
            final(self).wf(),
            final(self).allow_list_info == old(self).allow_list_info,
            match content {
                None => {
                    &&& final(self).trie@ == old(self).trie@
                    &&& final(self).listed@ == old(self).listed@
                    &&& final(self).block_list_info == old(self).block_list_info
                    &&& failed_pushed(old(self).failed_lists@, final(self).failed_lists@, url@, ListType::Block, errors@)
                },
                Some(c) => if list_ok(c@) {
                    &&& final(self).trie@ == insert_all(old(self).trie@, list_domains(c@), old(self).block_list_info@.len())
                    &&& final(self).listed@ == old(self).listed@.union(key_set(list_domains(c@)))
                    &&& final(self).failed_lists == old(self).failed_lists
                    &&& info_pushed(
                        old(self).block_list_info@,
                        final(self).block_list_info@,
                        url@,
                        novel_count(old(self).trie@, list_domains(c@), old(self).block_list_info@.len()),
                        errors@,
                    )
                } else {
                    &&& final(self).trie@ == old(self).trie@
                    &&& final(self).listed@ == old(self).listed@
                    &&& final(self).block_list_info == old(self).block_list_info
                    &&& final(self).failed_lists@.len() == old(self).failed_lists@.len() + 1
                    &&& final(self).failed_lists@.drop_last() == old(self).failed_lists@
                    &&& final(self).failed_lists@.last().url@ == url@
                    &&& final(self).failed_lists@.last().tipe == ListType::Block
                    &&& parse_failure(errors@, url@, c@, final(self).failed_lists@.last().errors@)
                },
            },
    {
        let mut errors = errors;
        match content {
            None => {
                let failed = FailedList { url: String::from_str(url), tipe: ListType::Block, errors };
                self.failed_lists.push(failed);
                proof {
                    assert(self.failed_lists@.drop_last() =~= old(self).failed_lists@);
                }
            },
            Some(raw) => {
                match Blocklist::parse(url, raw.as_str()) {
                    Err(e) => {
                        let ghost e0 = errors@;
                        let report = e.msg(raw.as_str());
                        errors.append(report.as_str());
                        let failed = FailedList { url: String::from_str(url), tipe: ListType::Block, errors };
                        self.failed_lists.push(failed);
                        proof {
                            assert(self.failed_lists@.drop_last() =~= old(self).failed_lists@);
                            let k = e.line as int;
                            assert(self.failed_lists@.last().errors@ == e0 + report_text(url@, raw@, e.start, e.end, PARSE_MESSAGE@));
                            assert(parse_failure(e0, url@, raw@, self.failed_lists@.last().errors@)) by {
                                assert(!line_ok(lines(raw@)[k]));
                                assert(raw@.subrange(e.start as int, e.end as int) == lines(raw@)[k]);
                            }
                        }
                    },
                    Ok(list) => {
                        let idx = self.block_list_info.len();
                        let ghost m0 = self.trie@;
                        let ghost ds = entry_domains(list.entries@);
                        let mut count: u64 = 0;
                        let mut j: usize = 0;
                        while j < list.entries.len()
                            invariant
                                idx == self.block_list_info@.len(),
                                idx + 1 < usize::MAX,
                                self.block_list_info == old(self).block_list_info,
                                self.failed_lists == old(self).failed_lists,
                                self.allow_list_info == old(self).allow_list_info,
                                self.listed == old(self).listed,
                                m0 == old(self).trie@,
                                ds == entry_domains(list.entries@),
                                j <= list.entries@.len(),
                                self.trie.wf(),
                                self.trie@ == insert_all(m0, ds.take(j as int), idx as nat),
                                count == novel_count(m0, ds.take(j as int), idx as nat),
                                count <= j,
                                forall|k: Seq<u8>|
                                    #[trigger] m0.contains_key(k) ==> m0[k].0.len() <= idx,
                                forall|k: Seq<u8>|
                                    #[trigger] self.trie@.contains_key(k) ==> self.trie@[k].0.len() <= idx + 1,
                            decreases list.entries@.len() - j,
                        {
                            let d = list.entries[j].domain();
                            let ghost before = self.trie@;
                            proof {
                                assert(ds[j as int] == d.0@);
                                assert(ds.take(j + 1).drop_last() =~= ds.take(j as int));
                            }
                            let already = self.trie.insert(d.0.as_str(), idx);
                            if !already {
                                count = count + 1;
                            }
                            proof {
                                assert forall|k: Seq<u8>| #[trigger] self.trie@.contains_key(k) implies self.trie@[k].0.len() <= idx + 1 by {
                                    if before.contains_key(k) && k != domain_key(d.0@) {
                                        assert(self.trie@[k] == before[k]);
                                    }
                                }
                            }
                            j = j + 1;
                        }
                        proof {
                            assert(ds.take(j as int) =~= ds);
                            lemma_insert_all_keys(m0, ds, idx as nat);
                        }
                        let none_yet = errors.as_str().unicode_len() == 0;
                        let errs = if none_yet {
                            None
                        } else {
                            Some(errors)
                        };
                        self.block_list_info.push(ListInfo { len: count, url: String::from_str(url), errors: errs });
                        self.listed = Ghost(self.listed@.union(key_set(ds)));
                        proof {
                            assert(self.block_list_info@.drop_last() =~= old(self).block_list_info@);
                        }
                    },
                }
            },
        }
    }

    /// Loads allow list `url`: a list without text or that does not parse is
    /// recorded as failed; else its entries are allowed in order (`*.name` with
    /// the subtree of `name`), and the list is recorded with its number of entries.
    pub fn add_allow_list(&mut self, url: &str, content: Option<String>, errors: String)
        requires
            old(self).wf(),
        ensures
            final(self).wf(),
            final(self).listed == old(self).listed,
            final(self).block_list_info == old(self).block_list_info,
            match content {
                None => {
                    &&& final(self).trie@ == old(self).trie@
                    &&& final(self).allow_list_info == old(self).allow_list_info
                    &&& failed_pushed(old(self).failed_lists@, final(self).failed_lists@, url@, ListType::Allow, errors@)
                },
                Some(c) => if list_ok(c@) {
                    &&& final(self).trie@ == allow_all(old(self).trie@, list_domains(c@))
                    &&& final(self).failed_lists == old(self).failed_lists
                    &&& info_pushed(
                        old(self).allow_list_info@,
                        final(self).allow_list_info@,
                        url@,
                        list_domains(c@).len(),
                        errors@,
                    )
                } else {
                    &&& final(self).trie@ == old(self).trie@
                    &&& final(self).allow_list_info == old(self).allow_list_info
                    &&& final(self).failed_lists@.len() == old(self).failed_lists@.len() + 1
                    &&& final(self).failed_lists@.drop_last() == old(self).failed_lists@
                    &&& final(self).failed_lists@.last().url@ == url@
                    &&& final(self).failed_lists@.last().tipe == ListType::Allow
                    &&& parse_failure(errors@, url@, c@, final(self).failed_lists@.last().errors@)
                },
            },
    {
        let mut errors = errors;
        match content {
            None => {
                let failed = FailedList { url: String::from_str(url), tipe: ListType::Allow, errors };
                self.failed_lists.push(failed);
                proof {
                    assert(self.failed_lists@.drop_last() =~= old(self).failed_lists@);
                }
            },
            Some(raw) => {
                match Blocklist::parse(url, raw.as_str()) {
                    Err(e) => {
                        let ghost e0 = errors@;
                        let report = e.msg(raw.as_str());
                        errors.append(report.as_str());
                        let failed = FailedList { url: String::from_str(url), tipe: ListType::Allow, errors };
                        self.failed_lists.push(failed);
                        proof {
                            assert(self.failed_lists@.drop_last() =~= old(self).failed_lists@);
                            let k = e.line as int;
                            assert(self.failed_lists@.last().errors@ == e0 + report_text(url@, raw@, e.start, e.end, PARSE_MESSAGE@));
                            assert(parse_failure(e0, url@, raw@, self.failed_lists@.last().errors@)) by {
                                assert(!line_ok(lines(raw@)[k]));
                                assert(raw@.subrange(e.start as int, e.end as int) == lines(raw@)[k]);
                            }
                        }
                    },
                    Ok(list) => {
                        let ghost m0 = self.trie@;
                        let ghost ds = entry_domains(list.entries@);
                        let n = list.entries.len();
                        let mut j: usize = 0;
                        while j < n
                            invariant
                                n == list.entries@.len(),
                                self.block_list_info == old(self).block_list_info,
                                self.failed_lists == old(self).failed_lists,
                                self.allow_list_info == old(self).allow_list_info,
                                self.listed == old(self).listed,
                                m0 == old(self).trie@,
                                old(self).wf(),
                                ds == entry_domains(list.entries@),
                                j <= n,
                                self.trie.wf(),
                                self.trie@ == allow_all(m0, ds.take(j as int)),
                                blocked_keys(self.trie@) == blocked_keys(m0),
                                forall|k: Seq<u8>|
                                    #[trigger] self.trie@.contains_key(k) ==> self.trie@[k].0.len()
                                        <= self.block_list_info@.len(),
                            decreases n - j,
                        {
                            let d = list.entries[j].domain();
                            let ghost before = self.trie@;
                            proof {
                                assert(ds[j as int] == d.0@);
                                assert(ds.take(j + 1).drop_last() =~= ds.take(j as int));
                            }
                            let text = d.0.as_str();
                            let len = text.unicode_len();
                            if len >= 2 && text.get_char(0) == '*' && text.get_char(1) == '.' {
                                let rest = text.substring_char(2, len);
                                self.trie.allow(rest, true);
                                proof {
                                    lemma_allow_keeps_blocked(before, rest@, true);
                                }
                            } else {
                                self.trie.allow(text, false);
                                proof {
                                    lemma_allow_keeps_blocked(before, text@, false);
                                }
                            }
                            proof {
                                assert forall|k: Seq<u8>| #[trigger] self.trie@.contains_key(k) implies self.trie@[k].0.len()
                                    <= self.block_list_info@.len() by {
                                    if before.contains_key(k) {
                                        assert(self.trie@[k].0 == before[k].0);
                                    }
                                }
                            }
                            j = j + 1;
                        }
                        proof {
                            assert(ds.take(j as int) =~= ds);
                        }
                        let none_yet = errors.as_str().unicode_len() == 0;
                        let errs = if none_yet {
                            None
                        } else {
                            Some(errors)
                        };
                        self.allow_list_info.push(ListInfo { len: n as u64, url: String::from_str(url), errors: errs });
                        proof {
                            assert(self.allow_list_info@.drop_last() =~= old(self).allow_list_info@);
                        }
                    },
                }
            },
        }
    }

    /// Allows `domain`, with its subtree where `allow_subdomains`.
    pub fn allow(&mut self, domain: &str, allow_subdomains: bool)
        requires
            old(self).wf(),
        ensures
            final(self).wf(),
            final(self).trie@ == allowed_in(old(self).trie@, domain@, allow_subdomains),
            final(self).listed == old(self).listed,
            final(self).block_list_info == old(self).block_list_info,
            final(self).failed_lists == old(self).failed_lists,
            final(self).allow_list_info == old(self).allow_list_info,
    {
        let ghost before = self.trie@;
        self.trie.allow(domain, allow_subdomains);
        proof {
            lemma_allow_keeps_blocked(before, domain@, allow_subdomains);
            assert forall|k: Seq<u8>| #[trigger] self.trie@.contains_key(k) implies self.trie@[k].0.len()
                <= self.block_list_info@.len() by {
                if before.contains_key(k) {
                    assert(self.trie@[k].0 == before[k].0);
                }
            }
        }
    }

    /// Ends a build; the snapshot is then published and only read.
    pub fn finish(&mut self)
        requires
            old(self).wf(),
        ensures
            final(self).wf(),
            final(self).trie@ == old(self).trie@,
            final(self).listed == old(self).listed,
            final(self).block_list_info == old(self).block_list_info,
            final(self).failed_lists == old(self).failed_lists,
            final(self).allow_list_info == old(self).allow_list_info,
    {
        self.trie.shrink_to_fit();
    }

    /// Whether `domain` is blocked.
    pub fn blocked(&self, domain: &str, include_subdomains: bool) -> (r: bool)
        requires
            self.wf(),
        ensures
            r == crate::trie::is_blocked_in(self.trie@, domain@, include_subdomains),
    {
        self.trie.blocked(domain, include_subdomains)
    }

    /// The number of blocked domains: the keys of every domain that a loaded
    /// block list holds.
    pub fn len(&self) -> (r: usize)
        requires
            self.wf(),
        ensures
            r == self.listed@.len(),
    {
        self.trie.len()
    }

    /// Every list: the block lists, then the allow lists (each loaded, or loaded
    /// with errors), then the lists that failed.
    pub fn list(&self) -> (r: Vec<List>)
        ensures
            r@.len() == self.block_list_info@.len() + self.allow_list_info@.len() + self.failed_lists@.len(),
            forall|j: int|
                0 <= j < self.block_list_info@.len() ==> describes(
                    #[trigger] r@[j],
                    self.block_list_info@[j],
                    ListType::Block,
                ),
            forall|j: int|
                0 <= j < self.allow_list_info@.len() ==> describes(
                    #[trigger] r@[self.block_list_info@.len() + j],
                    self.allow_list_info@[j],
                    ListType::Allow,
                ),
            forall|j: int|
                0 <= j < self.failed_lists@.len() ==> (#[trigger] r@[self.block_list_info@.len()
                    + self.allow_list_info@.len() + j] matches List::Error(f) && f.url@
                    == self.failed_lists@[j].url@ && f.tipe == self.failed_lists@[j].tipe
                    && f.errors@ == self.failed_lists@[j].errors@),
    {
        let mut r: Vec<List> = Vec::new();
        let b = self.block_list_info.len();
        let a = self.allow_list_info.len();
        let mut j: usize = 0;
        while j < b
            invariant
                b == self.block_list_info@.len(),
                j <= b,
                r@.len() == j,
                forall|i: int| 0 <= i < j ==> describes(#[trigger] r@[i], self.block_list_info@[i], ListType::Block),
            decreases b - j,
        {
            r.push(describe(&self.block_list_info[j], ListType::Block));
            j = j + 1;
        }
        let mut j: usize = 0;
        while j < a
            invariant
                b == self.block_list_info@.len(),
                a == self.allow_list_info@.len(),
                j <= a,
                r@.len() == b + j,
                forall|i: int| 0 <= i < b ==> describes(#[trigger] r@[i], self.block_list_info@[i], ListType::Block),
                forall|i: int| 0 <= i < j ==> describes(#[trigger] r@[b + i], self.allow_list_info@[i], ListType::Allow),
            decreases a - j,
        {
            r.push(describe(&self.allow_list_info[j], ListType::Allow));
            j = j + 1;
        }
        let f = self.failed_lists.len();
        let mut j: usize = 0;
        while j < f
            invariant
                b == self.block_list_info@.len(),
                a == self.allow_list_info@.len(),
                f == self.failed_lists@.len(),
                j <= f,
                r@.len() == b + a + j,
                forall|i: int| 0 <= i < b ==> describes(#[trigger] r@[i], self.block_list_info@[i], ListType::Block),
                forall|i: int| 0 <= i < a ==> describes(#[trigger] r@[b + i], self.allow_list_info@[i], ListType::Allow),
                forall|i: int|
                    0 <= i < j ==> (#[trigger] r@[b + a + i] matches List::Error(x) && x.url@
                        == self.failed_lists@[i].url@ && x.tipe == self.failed_lists@[i].tipe
                        && x.errors@ == self.failed_lists@[i].errors@),
            decreases f - j,
        {
            let x = &self.failed_lists[j];
            r.push(List::Error(FailedList { url: x.url.clone(), tipe: x.tipe, errors: x.errors.clone() }));
            j = j + 1;
        }
        r
    }

    /// Every node at a label boundary of `domain`, TLD first: the matched suffix
    /// of `domain`, the URLs of the block lists that hold it, and whether it is
    /// allowed.
    pub fn query(&self, domain: &str) -> (r: Vec<(String, QueryInfo)>)
        requires
            self.wf(),
        ensures
            ({
                let hits = hits_below(self.trie@, domain_key(domain@), domain_key(domain@).len() + 1);
                &&& r@.len() == hits.len()
                &&& forall|j: int|
                    0 <= j < hits.len() ==> {
                        &&& (#[trigger] r@[j]).0@ == byte_suffix(domain@, hits[j].1)
                        &&& r@[j].1.allowed == hits[j].0.1
                        &&& r@[j].1.lists@.map_values(|u: String| u@) == source_urls(hits[j].0.0, self.block_list_info@)
                    }
            }),
    {
        let hits = self.trie.query(domain);
        let ghost k = domain_key(domain@);
        let ghost hv = hits_below(self.trie@, k, k.len() + 1);
        let bytes = domain.as_bytes();
        proof {
            lemma_hits_offsets(self.trie@, k, k.len() + 1);
            assert(crate::trie::hits_view(hits@) == hv);
            assert(hits@.len() == hv.len());
        }
        let mut r: Vec<(String, QueryInfo)> = Vec::new();
        let mut j: usize = 0;
        while j < hits.len()
            invariant
                self.wf(),
                k == domain_key(domain@),
                bytes@ == encode_utf8(domain@),
                hv == hits_below(self.trie@, k, k.len() + 1),
                crate::trie::hits_view(hits@) == hv,
                hits@.len() == hv.len(),
                forall|i: int|
                    0 <= i < hv.len() ==> {
                        let o = (#[trigger] hv[i]).1;
                        &&& o <= k.len()
                        &&& (o == 0 || k[k.len() - o] == 46u8)
                        &&& self.trie@.contains_key(k.subrange(0, k.len() - o))
                        &&& hv[i].0 == self.trie@[k.subrange(0, k.len() - o)]
                    },
                j <= hits@.len(),
                r@.len() == j,
                forall|i: int|
                    0 <= i < j ==> {
                        &&& (#[trigger] r@[i]).0@ == byte_suffix(domain@, hv[i].1)
                        &&& r@[i].1.allowed == hv[i].0.1
                        &&& r@[i].1.lists@.map_values(|u: String| u@) == source_urls(hv[i].0.0, self.block_list_info@)
                    },
            decreases hits@.len() - j,
        {
            let (value, offset) = hits[j];
            proof {
                assert(hv[j as int] == (value@, offset as nat));
                let o = offset as int;
                assert(k == bytes@.reverse());
                if o > 0 {
                    assert(bytes@[o - 1] == k[k.len() - o]);
                }
                lemma_suffix_after_ascii(domain@, o);
            }
            let tail = slice_subrange(bytes, offset, bytes.len());
            let suffix = match str_from_utf8(tail) {
                Some(t) => String::from_str(t),
                None => String::new(),
            };
            let lists = source_list_urls(value, &self.block_list_info);
            r.push((suffix, QueryInfo { lists, allowed: value.allowed }));
            proof {
                assert(r@[j as int].0@ == byte_suffix(domain@, hv[j as int].1));
            }
            j = j + 1;
        }
        r
    }
}

fn describe(info: &ListInfo, t: ListType) -> (r: List)
    ensures
        describes(r, *info, t),
{
    match &info.errors {
        None => List::Loaded(OkList { len: info.len, url: info.url.clone(), tipe: t }),
        Some(e) => List::UpdateFailed(UpdateFailedList { len: info.len, url: info.url.clone(), tipe: t, errors: e.clone() }),
    }
}

/// The URLs of the block lists that hold a node, in list order.
fn source_list_urls(value: &TrieValue, infos: &Vec<ListInfo>) -> (r: Vec<String>)
    requires
        value@.0.len() <= infos@.len(),
    ensures
        r@.map_values(|u: String| u@) == source_urls(value@.0, infos@),
{
    let n = value.source_len();
    let mut r: Vec<String> = Vec::new();
    let mut i: usize = 0;
    while i < n
        invariant
            n == value@.0.len(),
            n <= infos@.len(),
            i <= n,
            r@.map_values(|u: String| u@) == source_urls(value@.0.take(i as int), infos@),
        decreases n - i,
    {
        proof {
            assert(value@.0.take(i + 1).drop_last() =~= value@.0.take(i as int));
        }
        if value.source(i) {
            r.push(infos[i].url.clone());
        }
        proof {
            assert(r@.map_values(|u: String| u@) =~= source_urls(value@.0.take(i + 1), infos@));
        }
        i = i + 1;
    }
    proof {
        assert(value@.0.take(n as int) =~= value@.0);
    }
    r
}

} // verus!
