//! The decisions of the list fetcher: where a list's text comes from, what is
//! done when that fails, and under which name a downloaded list is cached. The
//! reads, downloads and writes themselves are the caller's.

use vstd::prelude::*;

verus! {

/// Where the text of a list is read from first.
#[derive(Clone, Copy, Debug, PartialEq, Eq, Structural)]
pub enum FetchPlan {
    /// A `file://` list: read the path, with no cache in between.
    ReadFile,
    /// Restoring at start-up, with a cached copy: read the cache.
    ReadCache,
    /// Download the list.
    Download,
}

/// What follows a download.
pub enum AfterDownload {
    /// The download succeeded: use (and cache) this text.
    Use(String),
    /// It failed, with a cached copy: read that, with these errors so far.
    ReadCache(String),
    /// It failed, with no cached copy: the list has no text; these are the errors.
    Fail(String),
}

/// The cache file name of a URL path and query: every `/` turned into `-`, a
/// leading `-` dropped, and `--query` appended where there is a query.
pub open spec fn cache_name(path: Seq<char>, query: Option<Seq<char>>) -> Seq<char> {
    let dashed = path.map_values(|c: char| if c == '/' { '-' } else { c });
    let trimmed = if dashed.len() > 0 && dashed[0] == '-' {
        dashed.drop_first()
    } else {
        dashed
    };
    match query {
        Some(q) => trimmed + seq!['-', '-'] + q,
        None => trimmed,
    }
}

/// Chooses the source of a list's text.
pub fn plan(is_file_scheme: bool, restore_from_cache: bool, cache_exists: bool) -> (r: FetchPlan)
    ensures
        r == (if is_file_scheme {
            FetchPlan::ReadFile
        } else if restore_from_cache && cache_exists {
            FetchPlan::ReadCache
        } else {
            FetchPlan::Download
        }),
{
    if is_file_scheme {
        FetchPlan::ReadFile
    } else if restore_from_cache && cache_exists {
        FetchPlan::ReadCache
    } else {
        FetchPlan::Download
    }
}

/// The outcome of reading a `file://` list: its text, or no text and the error.
pub fn after_file_read(read: Result<String, String>) -> (r: (Option<String>, String))
    ensures
        match read {
            Ok(v) => r.0 == Some(v) && r.1@.len() == 0,
            Err(e) => r.0 is None && r.1@ == e@,
        },
{
    match read {
        Ok(v) => (Some(v), String::new()),
        Err(e) => (None, e),
    }
}

/// Decides what follows a download: its text, or, on an error, the cached copy
/// where there is one.
pub fn after_download(download: Result<String, String>, cache_exists: bool) -> (r: AfterDownload)
    ensures
        match download {
            Ok(v) => r matches AfterDownload::Use(t) && t == v,
            Err(e) => if cache_exists {
                r matches AfterDownload::ReadCache(x) && x@ == e@ + "\n"@ + "restore from cache\n"@
            } else {
                r matches AfterDownload::Fail(x) && x@ == e@ + "\n"@
            },
        },
{
    match download {
        Ok(v) => AfterDownload::Use(v),
        Err(e) => {
            let mut errors = e;
            errors.append("\n");
            if cache_exists {
                errors.append("restore from cache\n");
                AfterDownload::ReadCache(errors)
            } else {
                AfterDownload::Fail(errors)
            }
        },
    }
}

/// The outcome of reading the cached copy, after the errors so far.
pub fn after_cache_read(read: Result<String, String>, errors: String) -> (r: (Option<String>, String))
    ensures
        match read {
            Ok(v) => r.0 == Some(v) && r.1@ == errors@,
            Err(e) => r.0 is None && r.1@ == errors@ + e@ + "\n"@,
        },
{
    match read {
        Ok(v) => (Some(v), errors),
        Err(e) => {
            let mut all = errors;
            all.append(e.as_str());
            all.append("\n");
            (None, all)
        },
    }
}

/// The name of the cache file of a list, from its URL's path and query.
pub fn cache_file_name(path: &str, query: Option<&str>) -> (r: String)
    ensures
        r@ == cache_name(path@, match query {
            Some(q) => Some(q@),
            None => None,
        }),
{
    let chars = crate::parser::chars_of(path);
    let ghost dashed = path@.map_values(|c: char| if c == '/' { '-' } else { c });
    let first: usize = if chars.len() > 0 && (chars[0] == '/' || chars[0] == '-') {
        1
    } else {
        0
    };
    let mut name = String::new();
    let mut i: usize = first;
    assert(name@ =~= dashed.subrange(first as int, first as int));
    while i < chars.len()
        invariant
            chars@ == path@,
            dashed.len() == path@.len(),
            forall|j: int| 0 <= j < dashed.len() ==> #[trigger] dashed[j] == (if path@[j] == '/' {
                '-'
            } else {
                path@[j]
            }),
            first == 1 ==> dashed[0] == '-',
            first == 0 ==> (dashed.len() == 0 || dashed[0] != '-'),
            first <= i <= chars@.len(),
            name@ == dashed.subrange(first as int, i as int),
        decreases chars@.len() - i,
    {
        let c = chars[i];
        let d = if c == '/' {
            '-'
        } else {
            c
        };
        crate::parser::push_char(&mut name, d);
        i = i + 1;
        assert(name@ =~= dashed.subrange(first as int, i as int));
    }
    proof {
        if first == 1 {
            assert(dashed.drop_first() =~= dashed.subrange(1, dashed.len() as int));
        } else {
            assert(dashed =~= dashed.subrange(0, dashed.len() as int));
        }
    }
    match query {
        Some(q) => {
            name.append("--");
            name.append(q);
            proof {
                reveal_strlit("--");
                assert("--"@ =~= seq!['-', '-']);
            }
        },
        None => {},
    }
    name
}

} // verus!
