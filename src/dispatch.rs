//! The decisions of the DNS request handler and of the admin interface.

use crate::blocklist::InnerBlockList;
use crate::trie::is_blocked_in;
use vstd::prelude::*;

verus! {

/// What the handler does with one request.
#[derive(Clone, Copy, Debug, PartialEq, Eq, Structural)]
pub enum Verdict {
    /// Not exactly one well-formed question: answer SERVFAIL.
    ServFail,
    /// A blocked name: answer NXDOMAIN with empty sections.
    NxDomain,
    /// Hand the request to the upstream forwarder.
    Forward,
}

/// `s` without its trailing dots.
pub open spec fn strip_dots(s: Seq<char>) -> Seq<char>
    decreases s.len(),
{
    if s.len() > 0 && s.last() == '.' {
        strip_dots(s.drop_last())
    } else {
        s
    }
}

/// A queried name without its trailing (root) dots.
pub fn strip_trailing_dots(name: &str) -> (r: String)
    ensures
        r@ == strip_dots(name@),
{
    let chars = crate::parser::chars_of(name);
    let mut n = chars.len();
    assert(name@.take(n as int) =~= name@);
    while n > 0 && chars[n - 1] == '.'
        invariant
            chars@ == name@,
            n <= chars@.len(),
            strip_dots(name@) == strip_dots(name@.take(n as int)),
        decreases n,
    {
        assert(name@.take(n as int).drop_last() =~= name@.take(n - 1));
        n = n - 1;
    }
    let mut r = String::new();
    let mut i: usize = 0;
    while i < n
        invariant
            chars@ == name@,
            n <= chars@.len(),
            i <= n,
            r@ == name@.take(i as int),
        decreases n - i,
    {
        crate::parser::push_char(&mut r, chars[i]);
        i = i + 1;
        assert(r@ =~= name@.take(i as int));
    }
    assert(strip_dots(name@.take(n as int)) == name@.take(n as int));
    r
}

/// Decides one request from its question: `None` where the request does not
/// hold exactly one question. A name that the snapshot blocks is sunk; any other
/// is forwarded.
pub fn decide(list: &InnerBlockList, question: Option<&str>, include_subdomains: bool) -> (r: Verdict)
    requires
        list.wf(),
    ensures
        match question {
            None => r == Verdict::ServFail,
            Some(n) => r == if is_blocked_in(list.trie@, strip_dots(n@), include_subdomains) {
                Verdict::NxDomain
            } else {
                Verdict::Forward
            },
        },
{
    match question {
        None => Verdict::ServFail,
        Some(name) => {
            let bare = strip_trailing_dots(name);
            if list.blocked(bare.as_str(), include_subdomains) {
                Verdict::NxDomain
            } else {
                Verdict::Forward
            }
        },
    }
}

/// The share of blocked requests in hundredths, rounded half up; 0 before the
/// first request.
pub fn blocked_percent(total: u64, blocked: u64) -> (r: u128)
    ensures
        total == 0 ==> r == 0,
        total > 0 ==> r == (200 * blocked + total) / (2 * total),
{
    if total == 0 {
        0
    } else {
        let t = total as u128;
        let b = blocked as u128;
        (200 * b + t) / (2 * t)
    }
}

/// Whether `key` opens the protected endpoints: only where an admin key is set
/// and equal to it.
pub fn authorized(admin_key: &Option<String>, key: &String) -> (r: bool)
    ensures
        r == (admin_key is Some && admin_key->0@ == key@),
{
    match admin_key {
        Some(k) => String::eq(k, key),
        None => false,
    }
}

/// The hint of the landing page where the API documentation is served.
pub const DOC_HINT: &'static str = "<br>OpenApi doc is available <a href=\"/doc\">here</a>.";

/// The landing page: the program's name and version, and where the API
/// documentation is when it is served.
pub fn landing_page(name: &str, version: &str, doc_enable: bool) -> (r: String)
    ensures
        r@ == "🦀 "@ + name@ + " v"@ + version@ + " is running. "@ + if doc_enable {
            DOC_HINT@
        } else {
            Seq::<char>::empty()
        },
{
    let mut page = String::from_str("🦀 ");
    page.append(name);
    page.append(" v");
    page.append(version);
    page.append(" is running. ");
    if doc_enable {
        page.append(DOC_HINT);
    } else {
        assert(page@ + Seq::<char>::empty() =~= page@);
    }
    page
}

} // verus!
