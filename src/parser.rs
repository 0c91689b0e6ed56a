//! Parser for hosts-style and domain-only list files.
//!
//! A file is split into lines at `\n` and `\r`. Each line is empty (only spaces and
//! tabs), a comment (`#` in the first column), or an entry: a domain, optionally
//! preceded by an IPv4 or IPv6 address and blanks. One malformed line fails the
//! whole file.

use ariadne::{Config, Label, Report, ReportKind, Source};
use vstd::prelude::*;
use vstd::slice::slice_subrange;

verus! {

/// The Unicode `White_Space` property, which `char::is_whitespace` tests.
pub open spec fn is_white_space(c: char) -> bool {
    let u = c as u32;
    ||| 0x09 <= u <= 0x0D
    ||| u == 0x20
    ||| u == 0x85
    ||| u == 0xA0
    ||| u == 0x1680
    ||| 0x2000 <= u <= 0x200A
    ||| u == 0x2028
    ||| u == 0x2029
    ||| u == 0x202F
    ||| u == 0x205F
    ||| u == 0x3000
}

/// A character that may stand in a label.
pub open spec fn is_label_char(c: char) -> bool {
    !is_white_space(c) && c != '#' && c != ':' && c != '.'
}

/// A blank: space or tab.
pub open spec fn is_blank(c: char) -> bool {
    c == ' ' || c == '\t'
}

/// A character that ends a line.
pub open spec fn is_line_end(c: char) -> bool {
    c == '\n' || c == '\r'
}

pub open spec fn is_digit(c: char) -> bool {
    0x30 <= (c as u32) <= 0x39
}

pub open spec fn is_hex(c: char) -> bool {
    is_digit(c) || 0x41 <= (c as u32) <= 0x46 || 0x61 <= (c as u32) <= 0x66
}

pub open spec fn is_alnum(c: char) -> bool {
    is_digit(c) || 0x41 <= (c as u32) <= 0x5A || 0x61 <= (c as u32) <= 0x7A
}

/// A character that may stand in an address: alphanumerics (hex digits and zone
/// names), `.`, `:` and `%`.
pub open spec fn is_ip_char(c: char) -> bool {
    is_alnum(c) || c == '.' || c == ':' || c == '%'
}

/// The pieces of `s` between the occurrences of `sep`.
pub open spec fn split_on(s: Seq<char>, sep: char) -> Seq<Seq<char>>
    decreases s.len(),
{
    if s.len() == 0 {
        seq![seq![]]
    } else {
        let prev = split_on(s.drop_last(), sep);
        if s.last() == sep {
            prev.push(seq![])
        } else {
            prev.update(prev.len() - 1, prev.last().push(s.last()))
        }
    }
}

/// The lines of `s`, split at every `\n` and `\r`.
pub open spec fn lines(s: Seq<char>) -> Seq<Seq<char>>
    decreases s.len(),
{
    if s.len() == 0 {
        seq![seq![]]
    } else {
        let prev = lines(s.drop_last());
        if is_line_end(s.last()) {
            prev.push(seq![])
        } else {
            prev.update(prev.len() - 1, prev.last().push(s.last()))
        }
    }
}

/// The decimal value of a run of digits.
pub open spec fn dec_value(f: Seq<char>) -> nat
    decreases f.len(),
{
    if f.len() == 0 {
        0
    } else {
        dec_value(f.drop_last()) * 10 + ((f.last() as u32) - 0x30) as nat
    }
}

/// One part of a dotted-quad address: 0 to 255 without leading zeros.
pub open spec fn is_dec_octet(f: Seq<char>) -> bool {
    &&& 1 <= f.len() <= 3
    &&& forall|i: int| 0 <= i < f.len() ==> is_digit(#[trigger] f[i])
    &&& (f.len() == 1 || f[0] != '0')
    &&& dec_value(f) <= 255
}

/// An IPv4 address in dotted-quad form.
pub open spec fn is_ipv4(s: Seq<char>) -> bool {
    let p = split_on(s, '.');
    p.len() == 4 && forall|i: int| 0 <= i < 4 ==> is_dec_octet(#[trigger] p[i])
}

/// One group of an IPv6 address: one to four hex digits.
pub open spec fn is_h16(f: Seq<char>) -> bool {
    1 <= f.len() <= 4 && forall|i: int| 0 <= i < f.len() ==> is_hex(#[trigger] f[i])
}

/// The number of empty pieces.
pub open spec fn count_empty(g: Seq<Seq<char>>) -> nat
    decreases g.len(),
{
    if g.len() == 0 {
        0
    } else {
        count_empty(g.drop_last()) + if g.last().len() == 0 {
            1nat
        } else {
            0nat
        }
    }
}

/// Piece `i` of an IPv6 address: empty (part of `::`), a group, or, as the last
/// piece, an embedded IPv4 address.
pub open spec fn piece_ok(g: Seq<Seq<char>>, i: int) -> bool {
    g[i].len() == 0 || is_h16(g[i]) || (i == g.len() - 1 && is_ipv4(g[i]))
}

/// The number of 16-bit groups the pieces write out; an embedded IPv4 address
/// counts twice.
pub open spec fn units(g: Seq<Seq<char>>) -> int {
    (g.len() - count_empty(g)) + if is_ipv4(g.last()) {
        1int
    } else {
        0int
    }
}

/// An IPv6 address without zone: eight groups, or fewer with one `::`.
pub open spec fn is_ipv6_addr(a: Seq<char>) -> bool {
    let g = split_on(a, ':');
    let n = g.len();
    let e = count_empty(g);
    &&& forall|i: int| 0 <= i < n ==> piece_ok(g, i)
    &&& {
        ||| (e == 0 && units(g) == 8)
        ||| (e == 3 && n == 3)
        ||| (e == 2 && n >= 3 && ((g[0].len() == 0 && g[1].len() == 0) || (g[n - 2].len() == 0
            && g[n - 1].len() == 0)) && units(g) <= 7)
        ||| (e == 1 && g[0].len() > 0 && g[n - 1].len() > 0 && units(g) <= 7)
    }
}

/// A zone id: one or more alphanumerics.
pub open spec fn is_zone(z: Seq<char>) -> bool {
    z.len() >= 1 && forall|i: int| 0 <= i < z.len() ==> is_alnum(#[trigger] z[i])
}

/// An IPv6 address, with an optional `%zone` suffix.
pub open spec fn is_ipv6(s: Seq<char>) -> bool {
    let p = split_on(s, '%');
    ||| (p.len() == 1 && is_ipv6_addr(s))
    ||| (p.len() == 2 && is_ipv6_addr(p[0]) && is_zone(p[1]))
}

/// The address that may lead a hosts-file line: at least two address characters
/// that read as IPv4 or IPv6.
pub open spec fn is_ip(w: Seq<char>) -> bool {
    &&& w.len() >= 2
    &&& forall|i: int| 0 <= i < w.len() ==> is_ip_char(#[trigger] w[i])
    &&& (is_ipv4(w) || is_ipv6(w))
}

/// The first blank at or after `i`, or the length.
pub open spec fn first_blank(l: Seq<char>, i: nat) -> nat
    decreases l.len() - i,
{
    if i >= l.len() {
        l.len()
    } else if is_blank(l[i as int]) {
        i
    } else {
        first_blank(l, i + 1)
    }
}

/// The first character that is not a blank at or after `i`, or the length.
pub open spec fn skip_blanks(l: Seq<char>, i: nat) -> nat
    decreases l.len() - i,
{
    if i >= l.len() {
        l.len()
    } else if !is_blank(l[i as int]) {
        i
    } else {
        skip_blanks(l, i + 1)
    }
}

/// Only blanks.
pub open spec fn is_empty_line(l: Seq<char>) -> bool {
    forall|i: int| 0 <= i < l.len() ==> is_blank(#[trigger] l[i])
}

pub open spec fn is_comment(l: Seq<char>) -> bool {
    l.len() > 0 && l[0] == '#'
}

/// `t` without one trailing `.`.
pub open spec fn strip_dot(t: Seq<char>) -> Seq<char> {
    if t.len() > 0 && t.last() == '.' {
        t.drop_last()
    } else {
        t
    }
}

/// Labels separated by single dots, with an optional trailing dot.
pub open spec fn is_domain_text(t: Seq<char>) -> bool {
    let d = strip_dot(t);
    &&& d.len() > 0
    &&& d[0] != '.'
    &&& d.last() != '.'
    &&& forall|i: int| 0 <= i < d.len() ==> (#[trigger] d[i] == '.' || is_label_char(d[i]))
    &&& forall|i: int| 0 <= i < d.len() - 1 && #[trigger] d[i] == '.' ==> d[i + 1] != '.'
}

/// The line starts with an address followed by blanks.
pub open spec fn has_ip_prefix(l: Seq<char>) -> bool {
    let w = first_blank(l, 0);
    w < l.len() && is_ip(l.subrange(0, w as int))
}

/// What follows the address and its blanks, or the whole line.
pub open spec fn domain_part(l: Seq<char>) -> Seq<char> {
    if has_ip_prefix(l) {
        l.subrange(skip_blanks(l, first_blank(l, 0)) as int, l.len() as int)
    } else {
        l
    }
}

/// The line is well formed.
pub open spec fn line_ok(l: Seq<char>) -> bool {
    is_empty_line(l) || is_comment(l) || is_domain_text(domain_part(l))
}

/// The domains a well-formed line yields: none or one.
pub open spec fn line_yield(l: Seq<char>) -> Seq<Seq<char>> {
    if is_empty_line(l) || is_comment(l) {
        seq![]
    } else {
        seq![strip_dot(domain_part(l))]
    }
}

/// The domains that a sequence of lines yields, in order.
pub open spec fn yields(ls: Seq<Seq<char>>) -> Seq<Seq<char>>
    decreases ls.len(),
{
    if ls.len() == 0 {
        seq![]
    } else {
        yields(ls.drop_last()) + line_yield(ls.last())
    }
}

/// Every line of `s` is well formed.
pub open spec fn list_ok(s: Seq<char>) -> bool {
    forall|j: int| 0 <= j < lines(s).len() ==> line_ok(#[trigger] lines(s)[j])
}

/// The domains that the list `s` yields, in order.
pub open spec fn list_domains(s: Seq<char>) -> Seq<Seq<char>> {
    yields(lines(s))
}

/// A domain as written in a list, without its trailing dot.
pub struct Domain(pub String);

/// One entry of a list.
pub enum Line {
    Domain(Domain),
    /// A hosts-file line; the address is kept as written.
    IpDomain(String, Domain),
}

impl Line {
    pub open spec fn domain_text(&self) -> Seq<char> {
        match self {
            Line::Domain(d) => d.0@,
            Line::IpDomain(_, d) => d.0@,
        }
    }

    pub fn domain(&self) -> (r: &Domain)
        ensures
            r.0@ == self.domain_text(),
    {
        match self {
            Line::Domain(d) => d,
            Line::IpDomain(_, d) => d,
        }
    }
}

/// The domains of a sequence of entries.
pub open spec fn entry_domains(e: Seq<Line>) -> Seq<Seq<char>> {
    e.map_values(|l: Line| l.domain_text())
}

/// A parsed list.
pub struct Blocklist {
    pub entries: Vec<Line>,
}

/// The message of a parse error.
pub const PARSE_MESSAGE: &'static str = "malformed entry: expected a domain, an address and a domain, a comment or an empty line";

/// The first malformed line of a list: the list's name, the line's index, and
/// its span in characters of the input.
pub struct ParseError {
    pub path: String,
    pub line: usize,
    pub start: usize,
    pub end: usize,
    pub message: String,
}

/// The text of the diagnostic report that ariadne renders for one labelled span.
pub uninterp spec fn report_text(
    path: Seq<char>,
    input: Seq<char>,
    start: usize,
    end: usize,
    message: Seq<char>,
) -> Seq<char>;

/// Relies on ariadne's `Report`: renders an error report, without colours, with
/// one label over `start..end` (character offsets) of `input`.
#[verifier::external_body]
fn render_report(path: &str, input: &str, start: usize, end: usize, message: &str) -> (r: String)
    ensures
        r@ == report_text(path@, input@, start, end, message@),
{
    let mut out: Vec<u8> = Vec::new();
    let _ = Report::build(ReportKind::Error, path, start)
        .with_config(Config::default().with_color(false))
        .with_message(message)
        .with_label(Label::new((path, start..end)).with_message(message))
        .finish()
        .write((path, Source::from(input)), &mut out);
    String::from_utf8_lossy(&out).into_owned()
}

impl ParseError {
    /// The report of this error over the input that was parsed.
    pub fn msg(&self, input: &str) -> (r: String)
        ensures
            r@ == report_text(self.path@, input@, self.start, self.end, self.message@),
    {
        render_report(self.path.as_str(), input, self.start, self.end, self.message.as_str())
    }
}

pub(crate) fn chars_of(s: &str) -> (r: Vec<char>)
    ensures
        r@ == s@,
{
    let mut v: Vec<char> = Vec::new();
    for c in it: s.chars()
        invariant
            it.seq() == s@,
            v@ == it.seq().take(it.index() as int),
    {
        v.push(c);
    }
    v
}

/// Relies on `String::push`: appends one character.
#[verifier::external_body]
pub(crate) fn push_char(s: &mut String, c: char)
    ensures
        final(s)@ == old(s)@.push(c),
{
    s.push(c)
}

fn string_of(t: &[char]) -> (r: String)
    ensures
        r@ == t@,
{
    let mut s = String::new();
    let mut i: usize = 0;
    while i < t.len()
        invariant
            i <= t@.len(),
            s@ == t@.take(i as int),
        decreases t@.len() - i,
    {
        push_char(&mut s, t[i]);
        i = i + 1;
        assert(s@ =~= t@.take(i as int));
    }
    assert(t@.take(i as int) =~= t@);
    s
}

fn white_space(c: char) -> (r: bool)
    ensures
        r == is_white_space(c),
{
    let u = c as u32;
    (0x09 <= u && u <= 0x0D) || u == 0x20 || u == 0x85 || u == 0xA0 || u == 0x1680 || (0x2000 <= u
        && u <= 0x200A) || u == 0x2028 || u == 0x2029 || u == 0x202F || u == 0x205F || u == 0x3000
}

fn digit(c: char) -> (r: bool)
    ensures
        r == is_digit(c),
{
    0x30 <= (c as u32) && (c as u32) <= 0x39
}

fn hex(c: char) -> (r: bool)
    ensures
        r == is_hex(c),
{
    let u = c as u32;
    digit(c) || (0x41 <= u && u <= 0x46) || (0x61 <= u && u <= 0x66)
}

fn alnum(c: char) -> (r: bool)
    ensures
        r == is_alnum(c),
{
    let u = c as u32;
    digit(c) || (0x41 <= u && u <= 0x5A) || (0x61 <= u && u <= 0x7A)
}

proof fn lemma_split_nonempty(s: Seq<char>, sep: char)
    ensures
        split_on(s, sep).len() >= 1,
    decreases s.len(),
{
    if s.len() > 0 {
        lemma_split_nonempty(s.drop_last(), sep);
    }
}

/// The views of a sequence of pieces.
pub open spec fn pieces_view(v: Seq<Vec<char>>) -> Seq<Seq<char>> {
    v.map_values(|p: Vec<char>| p@)
}

fn split_pieces(s: &[char], sep: char) -> (r: Vec<Vec<char>>)
    ensures
        pieces_view(r@) == split_on(s@, sep),
{
    let mut done: Vec<Vec<char>> = Vec::new();
    let mut cur: Vec<char> = Vec::new();
    let mut i: usize = 0;
    while i < s.len()
        invariant
            i <= s@.len(),
            pieces_view(done@).push(cur@) == split_on(s@.take(i as int), sep),
        decreases s@.len() - i,
    {
        proof {
            assert(s@.take(i + 1 as int).drop_last() =~= s@.take(i as int));
        }
        if s[i] == sep {
            done.push(cur);
            cur = Vec::new();
            assert(pieces_view(done@).push(cur@) =~= split_on(s@.take(i + 1 as int), sep));
        } else {
            cur.push(s[i]);
            assert(pieces_view(done@).push(cur@) =~= split_on(s@.take(i + 1 as int), sep));
        }
        i = i + 1;
    }
    assert(s@.take(i as int) =~= s@);
    done.push(cur);
    assert(pieces_view(done@) =~= split_on(s@, sep));
    done
}

fn dec_octet(f: &[char]) -> (r: bool)
    ensures
        r == is_dec_octet(f@),
{
    let n = f.len();
    if n < 1 || n > 3 {
        return false;
    }
    if n > 1 && f[0] == '0' {
        return false;
    }
    let mut v: u32 = 0;
    let mut i: usize = 0;
    while i < n
        invariant
            n == f@.len(),
            1 <= n <= 3,
            i <= n,
            v == dec_value(f@.take(i as int)),
            i == 0 ==> v == 0,
            i == 1 ==> v < 10,
            i == 2 ==> v < 100,
            i == 3 ==> v < 1000,
            forall|j: int| 0 <= j < i ==> is_digit(#[trigger] f@[j]),
        decreases n - i,
    {
        if !digit(f[i]) {
            return false;
        }
        assert(f@.take(i + 1 as int).drop_last() =~= f@.take(i as int));
        v = v * 10 + (f[i] as u32 - 0x30);
        i = i + 1;
    }
    assert(f@.take(i as int) =~= f@);
    v <= 255
}

fn ipv4(s: &[char]) -> (r: bool)
    ensures
        r == is_ipv4(s@),
{
    let p = split_pieces(s, '.');
    if p.len() != 4 {
        return false;
    }
    let mut i: usize = 0;
    while i < 4
        invariant
            p@.len() == 4,
            pieces_view(p@) == split_on(s@, '.'),
            i <= 4,
            forall|j: int| 0 <= j < i ==> is_dec_octet(#[trigger] split_on(s@, '.')[j]),
        decreases 4 - i,
    {
        assert(p@[i as int]@ == split_on(s@, '.')[i as int]);
        if !dec_octet(p[i].as_slice()) {
            return false;
        }
        i = i + 1;
    }
    true
}

fn h16(f: &[char]) -> (r: bool)
    ensures
        r == is_h16(f@),
{
    let n = f.len();
    if n < 1 || n > 4 {
        return false;
    }
    let mut i: usize = 0;
    while i < n
        invariant
            n == f@.len(),
            i <= n,
            forall|j: int| 0 <= j < i ==> is_hex(#[trigger] f@[j]),
        decreases n - i,
    {
        if !hex(f[i]) {
            return false;
        }
        i = i + 1;
    }
    true
}

fn ipv6_addr(a: &[char]) -> (r: bool)
    ensures
        r == is_ipv6_addr(a@),
{
    let g = split_pieces(a, ':');
    let ghost gv = split_on(a@, ':');
    proof {
        lemma_split_nonempty(a@, ':');
    }
    let n = g.len();
    let mut e: usize = 0;
    let mut i: usize = 0;
    while i < n
        invariant
            n == g@.len(),
            n >= 1,
            gv == split_on(a@, ':'),
            pieces_view(g@) == gv,
            i <= n,
            e == count_empty(gv.take(i as int)),
            e <= i,
            forall|j: int| 0 <= j < i ==> piece_ok(gv, j),
        decreases n - i,
    {
        assert(g@[i as int]@ == gv[i as int]);
        let piece = g[i].as_slice();
        let ok = piece.len() == 0 || h16(piece) || (i == n - 1 && ipv4(piece));
        if !ok {
            assert(!piece_ok(gv, i as int));
            assert(!(forall|j: int| 0 <= j < gv.len() ==> piece_ok(gv, j)));
            return false;
        }
        assert(gv.take(i + 1 as int).drop_last() =~= gv.take(i as int));
        if piece.len() == 0 {
            e = e + 1;
        }
        i = i + 1;
    }
    assert(gv.take(n as int) =~= gv);
    assert(g@[n - 1]@ == gv[n - 1]);
    let last_v4 = ipv4(g[n - 1].as_slice());
    let w = n - e;
    let eight = if last_v4 {
        w == 7
    } else {
        w == 8
    };
    let at_most_seven = if last_v4 {
        w <= 6
    } else {
        w <= 7
    };
    if e == 0 {
        eight
    } else if e == 3 {
        n == 3
    } else if e == 2 {
        assert(g@[0]@ == gv[0]);
        if n < 3 {
            return false;
        }
        assert(g@[1]@ == gv[1]);
        assert(g@[n - 2]@ == gv[n - 2]);
        ((g[0].len() == 0 && g[1].len() == 0) || (g[n - 2].len() == 0 && g[n - 1].len() == 0))
            && at_most_seven
    } else if e == 1 {
        assert(g@[0]@ == gv[0]);
        g[0].len() > 0 && g[n - 1].len() > 0 && at_most_seven
    } else {
        false
    }
}

fn zone(z: &[char]) -> (r: bool)
    ensures
        r == is_zone(z@),
{
    if z.len() < 1 {
        return false;
    }
    let mut i: usize = 0;
    while i < z.len()
        invariant
            i <= z@.len(),
            forall|j: int| 0 <= j < i ==> is_alnum(#[trigger] z@[j]),
        decreases z@.len() - i,
    {
        if !alnum(z[i]) {
            return false;
        }
        i = i + 1;
    }
    true
}

fn ipv6(s: &[char]) -> (r: bool)
    ensures
        r == is_ipv6(s@),
{
    let p = split_pieces(s, '%');
    if p.len() == 1 {
        ipv6_addr(s)
    } else if p.len() == 2 {
        assert(p@[0]@ == split_on(s@, '%')[0]);
        assert(p@[1]@ == split_on(s@, '%')[1]);
        ipv6_addr(p[0].as_slice()) && zone(p[1].as_slice())
    } else {
        false
    }
}

fn ip(w: &[char]) -> (r: bool)
    ensures
        r == is_ip(w@),
{
    if w.len() < 2 {
        return false;
    }
    let mut i: usize = 0;
    while i < w.len()
        invariant
            i <= w@.len(),
            forall|j: int| 0 <= j < i ==> is_ip_char(#[trigger] w@[j]),
        decreases w@.len() - i,
    {
        let c = w[i];
        if !(alnum(c) || c == '.' || c == ':' || c == '%') {
            return false;
        }
        i = i + 1;
    }
    ipv4(w) || ipv6(w)
}

fn label_char(c: char) -> (r: bool)
    ensures
        r == is_label_char(c),
{
    !white_space(c) && c != '#' && c != ':' && c != '.'
}

fn find_blank(l: &[char], from: usize) -> (r: usize)
    requires
        from <= l@.len(),
    ensures
        r == first_blank(l@, from as nat),
        r <= l@.len(),
{
    let mut i = from;
    while i < l.len()
        invariant
            from <= i <= l@.len(),
            first_blank(l@, from as nat) == first_blank(l@, i as nat),
        decreases l@.len() - i,
    {
        if l[i] == ' ' || l[i] == '\t' {
            return i;
        }
        i = i + 1;
    }
    i
}

fn skip_blank(l: &[char], from: usize) -> (r: usize)
    requires
        from <= l@.len(),
    ensures
        r == skip_blanks(l@, from as nat),
        r <= l@.len(),
{
    let mut i = from;
    while i < l.len()
        invariant
            from <= i <= l@.len(),
            skip_blanks(l@, from as nat) == skip_blanks(l@, i as nat),
        decreases l@.len() - i,
    {
        if !(l[i] == ' ' || l[i] == '\t') {
            return i;
        }
        i = i + 1;
    }
    i
}

fn all_blank(l: &[char]) -> (r: bool)
    ensures
        r == is_empty_line(l@),
{
    let mut i: usize = 0;
    while i < l.len()
        invariant
            i <= l@.len(),
            forall|j: int| 0 <= j < i ==> is_blank(#[trigger] l@[j]),
        decreases l@.len() - i,
    {
        if !(l[i] == ' ' || l[i] == '\t') {
            return false;
        }
        i = i + 1;
    }
    true
}

/// The length of `t` without one trailing dot.
fn stripped_len(t: &[char]) -> (r: usize)
    ensures
        r <= t@.len(),
        strip_dot(t@) == t@.take(r as int),
{
    let n = t.len();
    if n > 0 && t[n - 1] == '.' {
        assert(t@.drop_last() =~= t@.take(n - 1));
        n - 1
    } else {
        assert(t@ =~= t@.take(n as int));
        n
    }
}

fn domain_text_ok(t: &[char]) -> (r: bool)
    ensures
        r == is_domain_text(t@),
{
    let dn = stripped_len(t);
    let ghost d = strip_dot(t@);
    if dn == 0 || t[0] == '.' || t[dn - 1] == '.' {
        return false;
    }
    let mut i: usize = 0;
    while i < dn
        invariant
            dn == d.len(),
            dn <= t@.len(),
            d == t@.take(dn as int),
            i <= dn,
            forall|j: int| 0 <= j < i ==> (#[trigger] d[j] == '.' || is_label_char(d[j])),
            forall|j: int| 0 <= j < i && j < d.len() - 1 && #[trigger] d[j] == '.' ==> d[j + 1] != '.',
        decreases dn - i,
    {
        let c = t[i];
        assert(d[i as int] == c);
        if !(c == '.' || label_char(c)) {
            return false;
        }
        if c == '.' && i + 1 < dn && t[i + 1] == '.' {
            assert(d[i + 1] == t@[i + 1]);
            return false;
        }
        i = i + 1;
    }
    true
}

/// Reads one line: `None` where it is malformed, else the entry it holds, if any.
fn parse_line(l: &[char]) -> (r: Option<Option<Line>>)
    ensures
        match r {
            None => !line_ok(l@),
            Some(None) => line_ok(l@) && line_yield(l@) == Seq::<Seq<char>>::empty(),
            Some(Some(e)) => line_ok(l@) && line_yield(l@) == seq![e.domain_text()],
        },
{
    if all_blank(l) {
        return Some(None);
    }
    if l.len() > 0 && l[0] == '#' {
        return Some(None);
    }
    let w = find_blank(l, 0);
    let mut address: Option<String> = None;
    let mut part_start: usize = 0;
    if w < l.len() {
        let head = slice_subrange(l, 0, w);
        if ip(head) {
            address = Some(string_of(head));
            part_start = skip_blank(l, w);
        }
    }
    let part = slice_subrange(l, part_start, l.len());
    assert(part@ == domain_part(l@)) by {
        if !has_ip_prefix(l@) {
            assert(l@.subrange(0, l@.len() as int) =~= l@);
        }
    }
    if !domain_text_ok(part) {
        return None;
    }
    let dn = stripped_len(part);
    let domain = Domain(string_of(slice_subrange(part, 0, dn)));
    match address {
        Some(a) => Some(Some(Line::IpDomain(a, domain))),
        None => Some(Some(Line::Domain(domain))),
    }
}

proof fn lemma_yields_push(ls: Seq<Seq<char>>, l: Seq<char>)
    ensures
        yields(ls.push(l)) == yields(ls) + line_yield(l),
{
    assert(ls.push(l).drop_last() =~= ls);
}

proof fn lemma_lines_step(s: Seq<char>, i: int)
    requires
        0 <= i < s.len(),
    ensures
        lines(s.take(i + 1)) == (if is_line_end(s[i]) {
            lines(s.take(i)).push(seq![])
        } else {
            let prev = lines(s.take(i));
            prev.update(prev.len() - 1, prev.last().push(s[i]))
        }),
{
    assert(s.take(i + 1).drop_last() =~= s.take(i));
}

impl Blocklist {
    /// Parses the list file `input`, named `path` in reports. Succeeds iff every
    /// line is well formed; the entries are the domains the lines yield, in order.
    pub fn parse(path: &str, input: &str) -> (r: Result<Blocklist, ParseError>)
        ensures
            match r {
                Ok(b) => list_ok(input@) && entry_domains(b.entries@) == list_domains(input@),
                Err(e) => {
                    &&& !list_ok(input@)
                    &&& e.path@ == path@
                    &&& e.line < lines(input@).len()
                    &&& !line_ok(lines(input@)[e.line as int])
                    &&& forall|j: int| 0 <= j < e.line ==> line_ok(#[trigger] lines(input@)[j])
                    &&& e.start <= e.end <= input@.len()
                    &&& input@.subrange(e.start as int, e.end as int) == lines(input@)[e.line as int]
                    &&& e.message@ == PARSE_MESSAGE@
                },
            },
    {
        let s = chars_of(input);
        let n = s.len();
        let mut entries: Vec<Line> = Vec::new();
        let mut bad: Option<(usize, usize, usize)> = None;
        let mut start: usize = 0;
        let mut line_no: usize = 0;
        let ghost mut done: Seq<Seq<char>> = seq![];
        let mut i: usize = 0;
        assert(s@.take(0) =~= Seq::<char>::empty());
        assert(s@.subrange(0, 0) =~= Seq::<char>::empty());
        assert(lines(s@.take(0)) =~= seq![s@.subrange(0, 0)]);
        while i < n
            invariant
                n == s@.len(),
                s@ == input@,
                start <= i <= n,
                line_no <= i,
                lines(s@.take(i as int)) == done.push(s@.subrange(start as int, i as int)),
                line_no == done.len(),
                bad is None ==> (forall|j: int| 0 <= j < done.len() ==> line_ok(#[trigger] done[j]))
                    && entry_domains(entries@) == yields(done),
                bad matches Some(x) ==> {
                    &&& x.0 < done.len()
                    &&& !line_ok(done[x.0 as int])
                    &&& forall|j: int| 0 <= j < x.0 ==> line_ok(#[trigger] done[j])
                    &&& x.1 <= x.2 <= n
                    &&& s@.subrange(x.1 as int, x.2 as int) == done[x.0 as int]
                },
            decreases n - i,
        {
            proof {
                lemma_lines_step(s@, i as int);
            }
            if s[i] == '\n' || s[i] == '\r' {
                let ghost cur = s@.subrange(start as int, i as int);
                if bad.is_none() {
                    let l = slice_subrange(s.as_slice(), start, i);
                    match parse_line(l) {
                        None => {
                            bad = Some((line_no, start, i));
                        },
                        Some(None) => {
                            proof {
                                lemma_yields_push(done, cur);
                                assert(yields(done) + line_yield(cur) =~= yields(done));
                            }
                        },
                        Some(Some(e)) => {
                            proof {
                                lemma_yields_push(done, cur);
                            }
                            entries.push(e);
                            assert(entry_domains(entries@) =~= yields(done.push(cur)));
                        },
                    }
                }
                proof {
                    done = done.push(cur);
                }
                line_no = line_no + 1;
                start = i + 1;
                assert(s@.subrange(start as int, i + 1) =~= Seq::<char>::empty());
                assert(lines(s@.take(i + 1)) =~= done.push(s@.subrange(start as int, i + 1)));
            } else {
                assert(s@.subrange(start as int, i as int).push(s@[i as int]) =~= s@.subrange(
                    start as int,
                    i + 1,
                ));
                assert(lines(s@.take(i + 1)) =~= done.push(s@.subrange(start as int, i + 1)));
            }
            i = i + 1;
        }
        assert(s@.take(n as int) =~= s@);
        let ghost cur = s@.subrange(start as int, n as int);
        let ghost all = done.push(cur);
        assert(all == lines(input@));
        if bad.is_none() {
            let l = slice_subrange(s.as_slice(), start, n);
            match parse_line(l) {
                None => {
                    bad = Some((line_no, start, n));
                },
                Some(None) => {
                    proof {
                        lemma_yields_push(done, cur);
                        assert(yields(done) + line_yield(cur) =~= yields(done));
                    }
                },
                Some(Some(e)) => {
                    proof {
                        lemma_yields_push(done, cur);
                    }
                    entries.push(e);
                    assert(entry_domains(entries@) =~= yields(all));
                },
            }
        }
        match bad {
            None => {
                assert(forall|j: int| 0 <= j < all.len() ==> line_ok(#[trigger] all[j])) by {
                    assert forall|j: int| 0 <= j < all.len() implies line_ok(#[trigger] all[j]) by {
                        if j < done.len() {
                            assert(all[j] == done[j]);
                        }
                    }
                }
                Ok(Blocklist { entries })
            },
            Some((k, a, b)) => {
                proof {
                    if k < done.len() {
                        assert(all[k as int] == done[k as int]);
                    } else {
                        assert(all[k as int] == cur);
                    }
                    assert forall|j: int| 0 <= j < k implies line_ok(#[trigger] all[j]) by {
                        assert(all[j] == done[j]);
                    }
                }
                Err(
                    ParseError {
                        path: String::from_str(path),
                        line: k,
                        start: a,
                        end: b,
                        message: String::from_str(PARSE_MESSAGE),
                    },
                )
            },
        }
    }
}

/// A list yields no domain iff every one of its lines is empty or a comment.
pub proof fn lemma_no_entries_iff_blank(s: Seq<char>)
    ensures
        (list_domains(s).len() == 0) <==> (forall|j: int|
            0 <= j < lines(s).len() ==> is_empty_line(#[trigger] lines(s)[j]) || is_comment(
                lines(s)[j],
            )),
{
    lemma_yields_empty(lines(s));
}

proof fn lemma_yields_empty(ls: Seq<Seq<char>>)
    ensures
        (yields(ls).len() == 0) <==> (forall|j: int|
            0 <= j < ls.len() ==> is_empty_line(#[trigger] ls[j]) || is_comment(ls[j])),
    decreases ls.len(),
{
    if ls.len() > 0 {
        let init = ls.drop_last();
        lemma_yields_empty(init);
        if forall|j: int| 0 <= j < ls.len() ==> is_empty_line(#[trigger] ls[j]) || is_comment(ls[j]) {
            assert forall|j: int| 0 <= j < init.len() implies is_empty_line(#[trigger] init[j])
                || is_comment(init[j]) by {
                assert(init[j] == ls[j]);
            }
            assert(is_empty_line(ls[ls.len() - 1]) || is_comment(ls[ls.len() - 1]));
        }
        if yields(ls).len() == 0 {
            assert forall|j: int| 0 <= j < ls.len() implies is_empty_line(#[trigger] ls[j])
                || is_comment(ls[j]) by {
                if j < init.len() {
                    assert(init[j] == ls[j]);
                }
            }
        }
    }
}

proof fn lemma_first_blank_at(l: Seq<char>, w: nat, i: nat)
    requires
        i <= w <= l.len(),
        forall|j: int| i <= j < w ==> !is_blank(#[trigger] l[j]),
        w == l.len() || is_blank(l[w as int]),
    ensures
        first_blank(l, i) == w,
    decreases w - i,
{
    if i < w {
        lemma_first_blank_at(l, w, i + 1);
    }
}

proof fn lemma_skip_blanks_at(l: Seq<char>, w: nat, i: nat)
    requires
        i <= w <= l.len(),
        forall|j: int| i <= j < w ==> is_blank(#[trigger] l[j]),
        w == l.len() || !is_blank(l[w as int]),
    ensures
        skip_blanks(l, i) == w,
    decreases w - i,
{
    if i < w {
        lemma_skip_blanks_at(l, w, i + 1);
    }
}

/// Domain text holds no blank, and does not start with one or with `#`.
proof fn lemma_domain_text_unblank(t: Seq<char>)
    requires
        is_domain_text(t),
    ensures
        forall|j: int| 0 <= j < t.len() ==> !is_blank(#[trigger] t[j]),
        t.len() > 0 && t[0] != '#',
        !is_empty_line(t),
        !is_comment(t),
        domain_part(t) == t,
{
    let d = strip_dot(t);
    assert forall|j: int| 0 <= j < t.len() implies !is_blank(#[trigger] t[j]) by {
        if j < d.len() {
            assert(d[j] == t[j]);
            assert(d[j] == '.' || is_label_char(d[j]));
        }
    }
    assert(d[0] == t[0]);
    assert(!is_blank(t[0]));
    lemma_first_blank_at(t, t.len(), 0);
}

/// A line that puts an address and blanks before a domain yields the same
/// domain as the domain alone.
pub proof fn lemma_address_prefix_ignored(ip: Seq<char>, blanks: Seq<char>, t: Seq<char>)
    requires
        is_ip(ip),
        blanks.len() >= 1,
        forall|j: int| 0 <= j < blanks.len() ==> is_blank(#[trigger] blanks[j]),
        is_domain_text(t),
    ensures
        line_ok(ip + blanks + t),
        line_ok(t),
        line_yield(ip + blanks + t) == line_yield(t),
        line_yield(t) == seq![strip_dot(t)],
{
    let l = ip + blanks + t;
    let w = ip.len();
    let v = ip.len() + blanks.len();
    lemma_domain_text_unblank(t);
    assert(is_ip_char(ip[0]));
    assert(l[0] == ip[0]);
    assert(!is_empty_line(l)) by {
        assert(!is_blank(l[0]));
    }
    assert forall|j: int| 0 <= j < w implies !is_blank(#[trigger] l[j]) by {
        assert(l[j] == ip[j]);
        assert(is_ip_char(ip[j]));
    }
    assert(l[w as int] == blanks[0]);
    lemma_first_blank_at(l, w, 0);
    assert(l.subrange(0, w as int) =~= ip);
    assert forall|j: int| w <= j < v implies is_blank(#[trigger] l[j]) by {
        assert(l[j] == blanks[j - w]);
    }
    assert(l[v as int] == t[0]);
    lemma_skip_blanks_at(l, v, w);
    assert(l.subrange(v as int, l.len() as int) =~= t);
}

/// A trailing dot after a domain changes nothing it yields.
pub proof fn lemma_trailing_dot_ignored(t: Seq<char>)
    requires
        is_domain_text(t),
        t.last() != '.',
    ensures
        line_ok(t.push('.')),
        line_ok(t),
        line_yield(t.push('.')) == line_yield(t),
{
    let t2 = t.push('.');
    assert(t2.drop_last() =~= t);
    assert(strip_dot(t2) == strip_dot(t));
    lemma_domain_text_unblank(t);
    lemma_domain_text_unblank(t2);
}

} // verus!
