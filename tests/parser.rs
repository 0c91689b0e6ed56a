use dns_sinkhole::parser::{Blocklist, Line};

fn parse(input: &str) -> Blocklist {
    match Blocklist::parse("<test-input>", input) {
        Ok(blocklist) => blocklist,
        Err(err) => {
            panic!("Failed to parse input:\n{}", err.msg(input));
        }
    }
}

fn test(input: &str, output: Vec<String>) {
    let blocklist = parse(input);
    let blocked: Vec<String> = blocklist
        .entries
        .into_iter()
        .map(|f| {
            match f {
                Line::Domain(domain) => domain,
                Line::IpDomain(_, domain) => domain,
            }
            .0
        })
        .collect();
    assert_eq!(blocked, output);
}

#[test]
fn simple_domain() {
    test("example.com\n", vec!["example.com".into()]);
}

#[test]
fn simple_domain_no_new_line() {
    test("example.com", vec!["example.com".into()]);
}

#[test]
fn simple_sub_domain() {
    test("foo.baaa.dev\n", vec!["foo.baaa.dev".into()]);
}

#[test]
fn muli_line_domain() {
    let input = "example.com\nfoo.baaa.dev\n";
    test(input, vec!["example.com".into(), "foo.baaa.dev".into()]);
}

#[test]
fn umlauts_domain() {
    test("ex√§mple.de\n", vec!["ex√§mple.de".into()]);
}

#[test]
fn emoji_domain() {
    test("üê¢.ü¶Ä.rs\n", vec!["üê¢.ü¶Ä.rs".into()]);
}

#[test]
fn kanji_domain() {
    test("Â§ß.Èô∏.jp\n", vec!["Â§ß.Èô∏.jp".into()]);
}

#[test]
fn ipv4_domain() {
    test("0.0.0.0 example.com\n", vec!["example.com".into()]);
}

#[test]
fn multiline_ipv4_domain() {
    let input = "0.0.0.0 foo.baaa.dev\n93.184.216.34 example.com\n";
    test(input, vec!["foo.baaa.dev".into(), "example.com".into()]);
}

#[test]
fn ipv6_localhost_domain() {
    test("::1 example.com\n", vec!["example.com".into()]);
}

#[test]
fn ipv6_domain() {
    test(
        "e07f:11fd:8305:4f91:2892:852f:20ea:3bf9 example.com\n",
        vec!["example.com".into()],
    );
}

#[test]
fn multiline_ipv6_domain() {
    let input = "5af1:5a34:a062:a3f:84fd:76f1:cf8:f67 foo.baaa.dev\nbabb:658e:8fa1:a257:521b:4638:d348:8b7d example.com\n";
    test(input, vec!["foo.baaa.dev".into(), "example.com".into()]);
}

#[test]
fn multiline_mish_domain() {
    let input = "5af1:5a34:a062:a3f:84fd:76f1:cf8:f67 foo.baaa.dev\nexample.com\n15.236.66.114 crates.io\n";
    test(
        input,
        vec!["foo.baaa.dev".into(), "example.com".into(), "crates.io".into()],
    );
}

#[test]
fn comment() {
    test("#example.com\n", vec![]);
}

#[test]
fn comment_muli_line() {
    let input = "example.com\n#foo.baa\n#\nfoo.baaa.dev\n";
    test(input, vec!["example.com".into(), "foo.baaa.dev".into()]);
}

#[test]
fn empty() {
    test("", vec![]);
}

#[test]
fn empty_lines() {
    let input = "\nexample.com\n\n";
    test(input, vec!["example.com".into()]);
}

#[test]
fn strange_chars_in_comment1() {
    test("#</maybe-spy>", vec![]);
}

#[test]
fn strange_chars_in_comment2() {
    test("#@ <<<<<<<< hostsplus => hosts", vec![]);
}

#[test]
fn loopback_ipv6_domain() {
    test("fe80::1%lo0 localhost", vec!["localhost".into()]);
}
