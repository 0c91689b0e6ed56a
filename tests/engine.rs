use dns_sinkhole::blocklist::{InnerBlockList, List, ListType};
use dns_sinkhole::config::{default_http_endpoint, default_timeout};
use dns_sinkhole::dispatch::{
    authorized, blocked_percent, decide, landing_page, strip_trailing_dots, Verdict,
};
use dns_sinkhole::fetch::{
    after_cache_read, after_download, after_file_read, cache_file_name, plan, AfterDownload,
    FetchPlan,
};
use dns_sinkhole::parser::Blocklist;

fn snapshot(block: &[&str], allow: &[&str]) -> InnerBlockList {
    let mut list = InnerBlockList::new();
    for (i, text) in block.iter().enumerate() {
        list.add_block_list(&format!("https://lists.example/block{i}.txt"), Some(text.to_string()), String::new());
    }
    for (i, text) in allow.iter().enumerate() {
        list.add_allow_list(&format!("https://lists.example/allow{i}.txt"), Some(text.to_string()), String::new());
    }
    list.finish();
    list
}

#[test]
fn scenario_exact_name_sunk() {
    let list = snapshot(&["ads.example\n"], &[]);
    assert_eq!(decide(&list, Some("ads.example."), false), Verdict::NxDomain);
}

#[test]
fn scenario_subdomain_forwarded_without_hierarchy() {
    let list = snapshot(&["ads.example\n"], &[]);
    assert_eq!(decide(&list, Some("tracker.ads.example."), false), Verdict::Forward);
}

#[test]
fn scenario_subdomain_sunk_with_hierarchy() {
    let list = snapshot(&["ads.example\n"], &[]);
    assert_eq!(decide(&list, Some("tracker.ads.example."), true), Verdict::NxDomain);
}

#[test]
fn scenario_wildcard_allow_forwards() {
    let list = snapshot(&["ads.example\n"], &["*.ads.example\n"]);
    assert_eq!(decide(&list, Some("tracker.ads.example."), true), Verdict::Forward);
    assert_eq!(decide(&list, Some("ads.example."), true), Verdict::Forward);
}

#[test]
fn scenario_missing_list_forwards_and_shows_error() {
    let mut list = InnerBlockList::new();
    list.add_block_list("https://lists.example/gone.txt", None, "error downloading\n".to_string());
    list.finish();
    assert_eq!(decide(&list, Some("anything."), true), Verdict::Forward);
    assert_eq!(list.len(), 0);
    let shown = list.list();
    assert_eq!(shown.len(), 1);
    match &shown[0] {
        List::Error(f) => {
            assert_eq!(f.url, "https://lists.example/gone.txt");
            assert_eq!(f.tipe, ListType::Block);
            assert_eq!(f.errors, "error downloading\n");
        },
        _ => panic!("expected an error state"),
    }
}

#[test]
fn scenario_blocked_ratio() {
    assert_eq!(blocked_percent(100, 10), 10);
    assert_eq!(blocked_percent(0, 0), 0);
    assert_eq!(blocked_percent(3, 1), 33);
    assert_eq!(blocked_percent(3, 2), 67);
    assert_eq!(blocked_percent(8, 1), 13);
}

#[test]
fn multiple_questions_fail() {
    let list = snapshot(&["ads.example\n"], &[]);
    assert_eq!(decide(&list, None, true), Verdict::ServFail);
}

#[test]
fn len_counts_union_of_block_lists() {
    let list = snapshot(
        &["a.example\nb.example\na.example\n", "b.example\nc.example\n"],
        &["d.example\n", "*.a.example\n"],
    );
    assert_eq!(list.len(), 3);
    let shown = list.list();
    assert_eq!(shown.len(), 4);
    match &shown[0] {
        List::Loaded(o) => {
            assert_eq!(o.len, 2);
            assert_eq!(o.tipe, ListType::Block);
        },
        _ => panic!("expected a loaded list"),
    }
    match &shown[1] {
        List::Loaded(o) => assert_eq!(o.len, 2),
        _ => panic!("expected a loaded list"),
    }
    match &shown[3] {
        List::Loaded(o) => {
            assert_eq!(o.len, 1);
            assert_eq!(o.tipe, ListType::Allow);
            assert_eq!(o.url, "https://lists.example/allow1.txt");
        },
        _ => panic!("expected a loaded list"),
    }
    assert!(!list.blocked("a.example", true));
    assert!(list.blocked("b.example", false));
}

#[test]
fn failed_parse_is_recorded_with_report() {
    let mut list = InnerBlockList::new();
    list.add_block_list("https://lists.example/bad.txt", Some("good.example\nnot a domain\n".to_string()), String::new());
    assert_eq!(list.len(), 0);
    match &list.list()[0] {
        List::Error(f) => {
            assert!(f.errors.contains("malformed entry"));
            assert!(f.errors.contains("https://lists.example/bad.txt"));
        },
        _ => panic!("expected an error state"),
    }
}

#[test]
fn partial_errors_show_update_failed() {
    let mut list = InnerBlockList::new();
    list.add_block_list("https://lists.example/l.txt", Some("x.example\n".to_string()), "restore from cache\n".to_string());
    match &list.list()[0] {
        List::UpdateFailed(u) => {
            assert_eq!(u.len, 1);
            assert_eq!(u.errors, "restore from cache\n");
        },
        _ => panic!("expected an update-failed state"),
    }
}

#[test]
fn failed_allow_list_is_recorded() {
    let mut list = InnerBlockList::new();
    list.add_allow_list("file:///etc/allow.txt", None, "can not open file".to_string());
    match &list.list()[0] {
        List::Error(f) => assert_eq!(f.tipe, ListType::Allow),
        _ => panic!("expected an error state"),
    }
}

#[test]
fn query_shows_suffixes_and_lists() {
    let list = snapshot(&["example.com\n", "example.com\nads.example.com\n"], &["com\n"]);
    let hits = list.query("ads.example.com");
    let suffixes: Vec<&str> = hits.iter().map(|h| h.0.as_str()).collect();
    assert_eq!(suffixes, vec!["com", "example.com", "ads.example.com"]);
    assert!(hits[0].1.allowed);
    assert!(hits[0].1.lists.is_empty());
    assert_eq!(
        hits[1].1.lists,
        vec!["https://lists.example/block0.txt".to_string(), "https://lists.example/block1.txt".to_string()]
    );
    assert_eq!(hits[2].1.lists, vec!["https://lists.example/block1.txt".to_string()]);
    assert!(!hits[2].1.allowed);
}

#[test]
fn query_keeps_non_ascii_suffix() {
    let list = snapshot(&["bücher.example\n"], &[]);
    let hits = list.query("www.bücher.example");
    assert_eq!(hits.len(), 1);
    assert_eq!(hits[0].0, "bücher.example");
}

#[test]
fn allow_on_snapshot() {
    let mut list = snapshot(&["ads.example\n"], &[]);
    list.allow("ads.example", false);
    assert!(!list.blocked("ads.example", false));
    assert_eq!(list.len(), 1);
}

#[test]
fn strip_dots() {
    assert_eq!(strip_trailing_dots("example.com."), "example.com");
    assert_eq!(strip_trailing_dots("example.com"), "example.com");
    assert_eq!(strip_trailing_dots("."), "");
}

#[test]
fn auth_needs_configured_key() {
    assert!(authorized(&Some("SECRET-REDACTED".to_string()), &"SECRET-REDACTED".to_string()));
    assert!(!authorized(&Some("SECRET-REDACTED".to_string()), &"other".to_string()));
    assert!(!authorized(&None, &"".to_string()));
}

#[test]
fn landing_page_text() {
    assert_eq!(landing_page("dns", "1.0.0", false), "🦀 dns v1.0.0 is running. ");
    assert_eq!(
        landing_page("dns", "1.0.0", true),
        "🦀 dns v1.0.0 is running. <br>OpenApi doc is available <a href=\"/doc\">here</a>."
    );
}

#[test]
fn config_defaults() {
    assert_eq!(default_timeout(), 3000);
    assert_eq!(default_http_endpoint(), "/dns-query");
}

#[test]
fn fetch_plan_matrix() {
    assert_eq!(plan(true, true, true), FetchPlan::ReadFile);
    assert_eq!(plan(true, false, false), FetchPlan::ReadFile);
    assert_eq!(plan(false, true, true), FetchPlan::ReadCache);
    assert_eq!(plan(false, true, false), FetchPlan::Download);
    assert_eq!(plan(false, false, true), FetchPlan::Download);
}

#[test]
fn download_failure_falls_back_to_cache() {
    match after_download(Err("timeout".to_string()), true) {
        AfterDownload::ReadCache(e) => assert_eq!(e, "timeout\nrestore from cache\n"),
        _ => panic!("expected the cache"),
    }
    match after_download(Err("timeout".to_string()), false) {
        AfterDownload::Fail(e) => assert_eq!(e, "timeout\n"),
        _ => panic!("expected a failure"),
    }
    match after_download(Ok("a.example\n".to_string()), false) {
        AfterDownload::Use(t) => assert_eq!(t, "a.example\n"),
        _ => panic!("expected the download"),
    }
}

#[test]
fn cache_and_file_reads() {
    let (c, e) = after_cache_read(Err("no such file".to_string()), "timeout\n".to_string());
    assert!(c.is_none());
    assert_eq!(e, "timeout\nno such file\n");
    let (c, e) = after_cache_read(Ok("x".to_string()), "timeout\n".to_string());
    assert_eq!(c, Some("x".to_string()));
    assert_eq!(e, "timeout\n");
    let (c, e) = after_file_read(Err("can not open file".to_string()));
    assert!(c.is_none());
    assert_eq!(e, "can not open file");
    let (c, e) = after_file_read(Ok("x".to_string()));
    assert_eq!(c, Some("x".to_string()));
    assert_eq!(e, "");
}

#[test]
fn cache_names() {
    assert_eq!(cache_file_name("/lists/ads.txt", None), "lists-ads.txt");
    assert_eq!(cache_file_name("/hosts", Some("format=plain")), "hosts--format=plain");
    assert_eq!(cache_file_name("", None), "");
}

#[test]
fn parse_error_location() {
    let input = "a.example\n\n1.2.3 b.example\nc.example\n";
    match Blocklist::parse("list.txt", input) {
        Ok(_) => panic!("expected an error"),
        Err(e) => {
            assert_eq!(e.line, 2);
            assert_eq!(e.start, 11);
            assert_eq!(e.end, 26);
            let report = e.msg(input);
            assert!(report.contains("list.txt"));
            assert!(report.contains("malformed entry"));
        },
    }
}

#[test]
fn address_forms() {
    let ok = [
        "::ffff:1.2.3.4 a.example",
        "1:2:3:4:5:6:7:8 a.example",
        "1::8 a.example",
        "1:2:3:4:5:6:7:: a.example",
        ":: a.example",
        "255.255.255.255\ta.example",
    ];
    for line in ok {
        let list = Blocklist::parse("t", line).ok().expect(line);
        assert_eq!(list.entries.len(), 1);
        assert_eq!(list.entries[0].domain().0, "a.example");
    }
    let bad = [
        "1::2::3 a.example",
        "256.1.1.1 a.example",
        "01.1.1.1 a.example",
        "1:2:3:4:5:6:7:8:9 a.example",
        "12345::1 a.example",
        "1.2.3.4",
        "a.example trailing",
    ];
    for line in bad {
        if line == "1.2.3.4" {
            let list = Blocklist::parse("t", line).ok().expect(line);
            assert_eq!(list.entries[0].domain().0, "1.2.3.4");
        } else {
            assert!(Blocklist::parse("t", line).is_err(), "{line}");
        }
    }
}

#[test]
fn laws_on_lines() {
    let bare = Blocklist::parse("t", "example.com").ok().unwrap();
    let v4 = Blocklist::parse("t", "0.0.0.0 example.com").ok().unwrap();
    let v6 = Blocklist::parse("t", "::1  example.com").ok().unwrap();
    let dotted = Blocklist::parse("t", "example.com.").ok().unwrap();
    for l in [&bare, &v4, &v6, &dotted] {
        assert_eq!(l.entries.len(), 1);
        assert_eq!(l.entries[0].domain().0, "example.com");
    }
    assert!(Blocklist::parse("t", " \t\n# only a comment\r\n").ok().unwrap().entries.is_empty());
    assert!(Blocklist::parse("t", "example.com..").is_err());
    assert!(Blocklist::parse("t", ".").is_err());
}
