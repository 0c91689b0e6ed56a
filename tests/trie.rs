use dns_sinkhole::trie::Trie;

#[test]
fn simple() {
    let mut tree = Trie::new();
    assert!(!tree.blocked("example.com", false));
    tree.insert("example.com", 0);
    assert!(tree.blocked("example.com", false));
    assert!(!tree.blocked("xample.com", false));
    assert!(!tree.blocked("example.co", false));
    assert!(!tree.blocked("eexample.com", false));
    tree.insert("eexample.com", 0);
    assert!(tree.blocked("eexample.com", false));
}

#[test]
fn sub_domain() {
    let mut tree = Trie::new();
    assert!(!tree.blocked("example.com", true));
    tree.insert("example.com", 0);
    assert!(tree.blocked("example.com", true));
    assert!(!tree.blocked("xample.com", true));
    assert!(!tree.blocked("example.co", true));
    assert!(!tree.blocked("eexample.com", true));
    tree.insert("eexample.com", 0);
    assert!(tree.blocked("eexample.com", true));
    assert!(tree.blocked("foo.example.com", true));
    assert!(!tree.blocked("foo.example.com", false));
}

#[test]
fn allow() {
    let mut tree = Trie::new();
    tree.insert("example.com", 0);
    tree.insert("sub.example.com", 0);
    assert!(tree.blocked("example.com", false));
    assert!(tree.blocked("sub.example.com", false));
    tree.allow("example.com", false);
    assert!(!tree.blocked("example.com", false));
    assert!(tree.blocked("sub.example.com", false));
}

#[test]
fn allow_all_subdomains() {
    let mut tree = Trie::new();
    tree.insert("example.com", 0);
    tree.insert("sub.example.com", 0);
    assert!(tree.blocked("example.com", false));
    assert!(tree.blocked("sub.example.com", false));
    tree.allow("example.com", true);
    assert!(!tree.blocked("example.com", false));
    assert!(!tree.blocked("sub.example.com", false));
}

#[test]
fn allow_sub_domain() {
    let mut tree = Trie::new();
    tree.insert("example.com", 0);
    tree.insert("sub.example.com", 0);
    assert!(tree.blocked("example.com", true));
    assert!(tree.blocked("sub.example.com", true));
    tree.allow("sub.example.com", true);
    assert!(tree.blocked("example.com", true));
    assert!(!tree.blocked("sub.example.com", true));
}

#[test]
fn insert_twice_reports_already_listed() {
    let mut tree = Trie::new();
    assert!(!tree.insert("ads.example", 2));
    let len = tree.len();
    assert!(tree.insert("ads.example", 2));
    assert_eq!(tree.len(), len);
    assert_eq!(len, 1);
}

#[test]
fn insert_by_other_list_is_novel_for_it() {
    let mut tree = Trie::new();
    assert!(!tree.insert("ads.example", 3));
    assert!(!tree.insert("ads.example", 0));
    assert!(tree.insert("ads.example", 0));
    assert!(tree.insert("ads.example", 3));
    assert_eq!(tree.len(), 1);
}

#[test]
fn empty_domain_is_ignored() {
    let mut tree = Trie::new();
    assert!(!tree.insert("", 0));
    assert!(!tree.insert("", 0));
    assert_eq!(tree.len(), 0);
}

#[test]
fn other_domain_not_blocked() {
    let mut tree = Trie::new();
    tree.insert("example.com", 0);
    assert!(!tree.blocked("example.org", false));
    assert!(!tree.blocked("com", false));
}

#[test]
fn subdomain_blocked_only_hierarchically() {
    let mut tree = Trie::new();
    tree.insert("example.com", 0);
    assert!(tree.blocked("sub.example.com", true));
    assert!(!tree.blocked("sub.example.com", false));
    assert!(tree.blocked("a.b.sub.example.com", true));
}

#[test]
fn allowed_domain_not_blocked_either_way() {
    let mut tree = Trie::new();
    tree.insert("example.com", 0);
    tree.allow("example.com", false);
    assert!(!tree.blocked("example.com", false));
    assert!(!tree.blocked("example.com", true));
}

#[test]
fn allow_subtree_unblocks_inserted_child() {
    let mut tree = Trie::new();
    tree.insert("example.com", 0);
    tree.insert("sub.example.com", 0);
    tree.allow("example.com", true);
    assert!(!tree.blocked("sub.example.com", true));
    assert!(!tree.blocked("deeper.sub.example.com", true));
}

#[test]
fn allow_unseen_domain_blocks_nothing() {
    let mut tree = Trie::new();
    tree.allow("never.seen", true);
    assert!(!tree.blocked("never.seen", true));
    assert!(!tree.blocked("never.seen", false));
    assert_eq!(tree.len(), 0);
}

#[test]
fn allow_only_nodes_are_not_counted() {
    let mut tree = Trie::new();
    tree.insert("a.example", 0);
    tree.allow("b.example", false);
    assert_eq!(tree.len(), 1);
    tree.insert("b.example", 1);
    assert_eq!(tree.len(), 2);
    assert!(!tree.blocked("b.example", false));
}

#[test]
fn deepest_ancestor_decides() {
    let mut tree = Trie::new();
    tree.insert("example.com", 0);
    tree.allow("sub.example.com", false);
    assert!(!tree.blocked("x.sub.example.com", true));
    assert!(tree.blocked("x.other.example.com", true));
}

#[test]
fn query_lists_ancestor_hits_with_offsets() {
    let mut tree = Trie::new();
    tree.insert("example.com", 0);
    tree.insert("a.example.com", 1);
    tree.allow("com", false);
    let hits = tree.query("a.example.com");
    let offsets: Vec<usize> = hits.iter().map(|h| h.1).collect();
    assert_eq!(offsets, vec![10, 2, 0]);
    assert!(hits[0].0.allowed);
    assert_eq!(hits[0].0.source_len(), 0);
    assert!(hits[1].0.source(0));
    assert!(!hits[2].0.source(0));
    assert!(hits[2].0.source(1));
}
