use dewey::BuildFailure;
use dewey::Class;
use dewey::Dewey;
use dewey::SourceNode;

fn leaf(code: &str, name: &str) -> SourceNode {
    SourceNode::Leaf { name: name.to_string(), code: code.to_string() }
}

fn node(code: &str, name: &str, children: Vec<SourceNode>) -> SourceNode {
    SourceNode::Internal { name: name.to_string(), code: code.to_string(), children }
}

/// A classification forest with the shape the engine expects: ten top-level
/// categories, 98 entries under category 0, 11 entries under 09, a single
/// entry at 247, and no 008.
fn fixture() -> Vec<SourceNode> {
    let mut c00: Vec<SourceNode> = Vec::new();
    for d in [0usize, 1, 2, 3, 4, 5, 6, 7, 9] {
        c00.push(leaf(&format!("00{}", d), &format!("General works {}", d)));
    }

    // 010 carries four deeper entries, plus one subtree past the depth
    // cutoff that must be dropped entirely.
    let mut c010: Vec<SourceNode> = Vec::new();
    for d in 0..4usize {
        c010.push(leaf(&format!("010{}", d), &format!("Bibliographies of works {}", d)));
    }
    c010.push(node("01000", "Too deep", vec![leaf("010001", "Deeper still", )]));
    let mut c01: Vec<SourceNode> = Vec::new();
    c01.push(node("010", "Bibliography", c010));
    for d in 1..8usize {
        c01.push(leaf(&format!("01{}", d), &format!("Bibliographies {}", d)));
    }

    let mut c0: Vec<SourceNode> = Vec::new();
    c0.push(node("00X", "Computer science, knowledge & systems", c00));
    c0.push(node("01X", "Bibliographies", c01));
    for t in 2..9usize {
        let mut sub: Vec<SourceNode> = Vec::new();
        for d in 0..8usize {
            sub.push(leaf(&format!("0{}{}", t, d), &format!("Topic 0{}{}", t, d)));
        }
        c0.push(node(&format!("0{}X", t), &format!("Division 0{}", t), sub));
    }
    let mut c09: Vec<SourceNode> = Vec::new();
    for d in 0..10usize {
        c09.push(leaf(&format!("09{}", d), &format!("Manuscripts {}", d)));
    }
    c0.push(node("09X", "Manuscripts & rare books", c09));

    let c19 = leaf("19X", "Modern Western philosophy (19th-century, 20th-century)");
    let c247 = leaf("247", "Church furnishings & related articles");
    let c24 = node("24X", "Christian moral & devotional theology", vec![c247]);

    vec![
        node("0XX", "Computer science, information & general works", c0),
        node("1XX", "Philosophy & psychology", vec![c19]),
        node("2XX", "Religion", vec![c24]),
        leaf("3XX", "Social sciences"),
        leaf("4XX", "Language"),
        leaf("5XX", "Science"),
        leaf("6XX", "Technology"),
        leaf("7XX", "Arts & recreation"),
        leaf("8XX", "Literature"),
        leaf("9XX", "History & geography"),
    ]
}

fn index() -> Dewey {
    match Dewey::new(&fixture()) {
        Ok(d) => d,
        Err(_) => panic!("the fixture must build"),
    }
}

fn build_failure(nodes: &Vec<SourceNode>) -> BuildFailure {
    match Dewey::new(nodes) {
        Ok(_) => panic!("expected the build to fail"),
        Err(e) => e,
    }
}

#[test]
fn test_get() {
    let dewey = index();
    for (code, name) in vec![
        ("247", "Church furnishings & related articles"),
        ("19", "Modern Western philosophy (19th-century, 20th-century)"),
        ("0", "Computer science, information & general works"),
    ] {
        let result = Class::get(&dewey, code).unwrap();
        assert!(result.is_some(), "Expected Some(...)!");
        assert_eq!(result.unwrap().name, name.to_string(), "Names didn't match!");
    }

    assert!(Class::get(&dewey, "008").unwrap().is_none(), "This code is unused!");
}

#[test]
fn test_matches() {
    let dewey = index();
    for (code, matches) in vec![("247", 1usize), ("09", 11usize), ("0", 98usize)] {
        let result = Class::get(&dewey, code).unwrap();
        assert!(result.is_some(), "Expected Some(...)!");
        assert_eq!(
            result.unwrap().matches(&dewey).unwrap().len(),
            matches,
            "Unexpected number of matches"
        );
    }
}

#[test]
fn normalize_strips_trailing_placeholders() {
    let dewey = index();
    assert_eq!(dewey.as_label("24X").unwrap(), vec![2u8, 4u8]);
    assert_eq!(dewey.as_label("0XX").unwrap(), vec![0u8]);
    assert_eq!(dewey.as_label("247").unwrap(), vec![2u8, 4u8, 7u8]);
}

#[test]
fn normalize_rejects_non_digits() {
    let dewey = index();
    assert!(dewey.as_label("2a7").is_err());
    assert!(dewey.as_label("X24").is_err(), "a leading placeholder is not stripped");
    assert!(dewey.get_class("bad code").is_err());
    assert!(dewey.get_matches("2-4").is_err());
}

#[test]
fn categories_are_the_ten_digits() {
    let dewey = index();
    let cats = dewey.categories();
    assert_eq!(cats.len(), 10);
    for (i, c) in cats.iter().enumerate() {
        assert_eq!(c.code, format!("{}", i));
        assert!(c.has_children || i >= 3);
    }
}

#[test]
fn matches_contains_the_exact_match() {
    let dewey = index();
    let found = dewey.get_matches("247").unwrap();
    assert!(found.iter().any(|c| c.code == "247"));
    let found = dewey.get_matches("09").unwrap();
    assert!(found.iter().any(|c| c.code == "09"));
}

#[test]
fn matches_are_sorted_by_code() {
    let dewey = index();
    let found = dewey.get_matches("0").unwrap();
    assert_eq!(found[0].code, "0");
    for w in found.windows(2) {
        assert!(w[0].code < w[1].code, "matches out of order");
    }
}

#[test]
fn direct_children_are_one_level_deeper() {
    let dewey = index();
    let children = dewey.get_direct_children("0").unwrap();
    assert_eq!(children.len(), 10);
    for c in &children {
        assert_eq!(c.code.len(), 2);
        assert!(c.code.starts_with('0'));
    }
    // The comparison length is the raw caller-supplied code's, placeholders
    // included: a three-character input selects codes of length four.
    let quirk = dewey.get_direct_children("0XX").unwrap();
    assert_eq!(quirk.len(), 4);
    for c in &quirk {
        assert_eq!(c.code.len(), 4);
    }
}

#[test]
fn all_children_exclude_the_node_itself() {
    let dewey = index();
    let children = dewey.get_all_children("0").unwrap();
    assert_eq!(children.len(), 97);
    for c in &children {
        assert_ne!(c.code, "0");
        assert!(c.code.starts_with('0'));
    }
    let deep = dewey.get_all_children("01").unwrap();
    assert_eq!(deep.len(), 12);
}

#[test]
fn parent_drops_the_last_character() {
    let dewey = index();
    let parent = dewey.get_parent("247").unwrap().unwrap();
    assert_eq!(parent.code, "24");
    let parent = dewey.get_parent("19").unwrap().unwrap();
    assert_eq!(parent.code, "1");
    assert!(dewey.get_parent("0").unwrap().is_none());
    assert!(dewey.get_parent("").unwrap().is_none());
}

#[test]
fn class_navigation_methods_agree_with_the_engine() {
    let dewey = index();
    let c24 = Class::get(&dewey, "24").unwrap().unwrap();
    assert_eq!(c24.children(&dewey).unwrap().len(), 1);
    assert_eq!(c24.all_children(&dewey).unwrap().len(), 1);
    assert_eq!(c24.parent(&dewey).unwrap().unwrap().code, "2");
    assert_eq!(c24.matches(&dewey).unwrap().len(), 2);
}

#[test]
fn depth_cutoff_drops_whole_subtrees() {
    let dewey = index();
    assert!(dewey.get_class("01000").unwrap().is_none());
    assert!(dewey.get_class("010001").unwrap().is_none());
    assert!(dewey.get_class("0100").unwrap().is_some());
}

#[test]
fn rebuild_is_deterministic() {
    let d1 = index();
    let d2 = index();
    let m1 = d1.get_matches("").unwrap();
    let m2 = d2.get_matches("").unwrap();
    assert_eq!(m1.len(), m2.len());
    for (a, b) in m1.iter().zip(m2.iter()) {
        assert_eq!(a.code, b.code);
        assert_eq!(a.name, b.name);
        assert_eq!(a.has_children, b.has_children);
    }
}

#[test]
fn build_rejects_malformed_codes() {
    let bad = vec![leaf("0a", "Not a digit code")];
    assert_eq!(build_failure(&bad), BuildFailure::InvalidCode);
    let empty_code = vec![leaf("XX", "Nothing but placeholders")];
    assert_eq!(build_failure(&empty_code), BuildFailure::InvalidCode);
}

#[test]
fn build_rejects_duplicate_keys() {
    let dup = vec![leaf("1", "One"), leaf("1X", "Also one")];
    assert_eq!(build_failure(&dup), BuildFailure::DuplicateKey);
}

#[test]
fn build_rejects_missing_categories() {
    assert_eq!(build_failure(&Vec::new()), BuildFailure::MissingCategory);
    let mut nine = fixture();
    nine.pop();
    assert_eq!(build_failure(&nine), BuildFailure::MissingCategory);
}

#[test]
fn map_exposes_the_underlying_trie() {
    let dewey = index();
    let trie = dewey.map();
    let found = trie.exact_match(vec![2u8, 4u8, 7u8]).unwrap();
    assert_eq!(found.name, "Church furnishings & related articles");
    assert!(trie.exact_match(vec![0u8, 0u8, 8u8]).is_none());
}
