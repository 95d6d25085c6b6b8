use deploy_state::descriptions::deployment_text;
use deploy_state::descriptions::identity_before;
use deploy_state::descriptions::same_identity;
use deploy_state::descriptions::Identified;
use deploy_state::descriptions::SymlinkDescription;
use deploy_state::descriptions::TemplateDescription;
use deploy_state::ordered::contains_identity;
use deploy_state::ordered::difference;
use deploy_state::ordered::insert_ordered;
use deploy_state::ordered::intersection;
use deploy_state::ordered::lower_bound;
use deploy_state::paths::join_path;
use deploy_state::paths::path_before;
use deploy_state::targets::copy_owner;
use deploy_state::targets::copy_text;
use deploy_state::targets::Owner;
use deploy_state::targets::SymbolicTarget;
use deploy_state::targets::TemplateTarget;

fn link(source: &str, path: &str) -> SymlinkDescription {
    SymlinkDescription {
        source: source.to_string(),
        target: SymbolicTarget { target: path.to_string(), owner: None },
    }
}

fn decorated(append: Option<&str>, prepend: Option<&str>) -> TemplateDescription {
    TemplateDescription {
        source: "s".to_string(),
        target: TemplateTarget {
            target: "t".to_string(),
            owner: None,
            append: append.map(|a| a.to_string()),
            prepend: prepend.map(|p| p.to_string()),
        },
        cache: "cache/s".to_string(),
    }
}

#[test]
fn apply_actions_attaches_both_ends() {
    assert_eq!(decorated(Some("A"), Some("P")).apply_actions("B".to_string()), "PBA");
}

#[test]
fn apply_actions_without_text_changes_nothing() {
    assert_eq!(decorated(None, None).apply_actions("B".to_string()), "B");
    assert_eq!(decorated(None, None).apply_actions(String::new()), "");
}

#[test]
fn apply_actions_append_only() {
    assert_eq!(decorated(Some("tail"), None).apply_actions("B".to_string()), "Btail");
}

#[test]
fn apply_actions_prepend_only() {
    assert_eq!(decorated(None, Some("head")).apply_actions("B".to_string()), "headB");
}

#[test]
fn apply_actions_is_literal() {
    assert_eq!(
        decorated(Some("\n# end \n"), Some("  #!/bin/sh\n")).apply_actions(" x ".to_string()),
        "  #!/bin/sh\n x \n# end \n"
    );
}

#[test]
fn join_path_puts_one_separator_between() {
    assert_eq!(join_path("cache", "file1s"), "cache/file1s");
    assert_eq!(join_path("cache/", "file1s"), "cache/file1s");
    assert_eq!(join_path("cache", "dir/file"), "cache/dir/file");
    assert_eq!(join_path("/var/cache", "f"), "/var/cache/f");
}

#[test]
fn join_path_onto_nothing_is_the_source() {
    assert_eq!(join_path("", "file1s"), "file1s");
    assert_eq!(join_path("cache", ""), "cache/");
    assert_eq!(join_path("", ""), "");
}

#[test]
fn join_path_absolute_source_replaces_root() {
    assert_eq!(join_path("cache", "/etc/hosts"), "/etc/hosts");
}

#[test]
fn join_path_agrees_with_the_standard_library() {
    let cases = [
        ("cache", "file1s"),
        ("cache/", "file1s"),
        ("", "file1s"),
        ("cache", "/abs"),
        ("/", "x"),
        ("a/b", "c/d"),
        ("cache", ""),
        ("", ""),
        ("cache//", "x"),
        ("a", "//b"),
        ("a/", "/b"),
        ("a", "b/"),
    ];
    for (root, source) in cases {
        let expected = std::path::Path::new(root).join(source);
        assert_eq!(std::path::PathBuf::from(join_path(root, source)), expected);
        assert_eq!(join_path(root, source), expected.to_str().unwrap());
    }
}

#[test]
fn paths_order_by_character() {
    assert!(path_before("a", "b"));
    assert!(!path_before("b", "a"));
    assert!(path_before("a", "ab"));
    assert!(!path_before("ab", "a"));
    assert!(path_before("", "a"));
    assert!(!path_before("a", ""));
    assert!(!path_before("a", "a"));
    assert!(!path_before("", ""));
    assert!(path_before("file0t", "file3t"));
    assert!(path_before("a.b", "a/b"));
    assert!(path_before("Z", "a"));
    assert!(path_before("z", "\u{e9}"));
    assert!(path_before("\u{e9}", "\u{4e2d}"));
    assert!(!path_before("\u{4e2d}", "\u{e9}"));
}

#[test]
fn paths_order_as_strings_do() {
    let samples = ["", "a", "ab", "b", "a/b", "a.b", "\u{e9}", "z", "file1s", "file1t"];
    for x in samples {
        for y in samples {
            assert_eq!(path_before(x, y), x < y);
        }
    }
}

#[test]
fn identity_is_source_and_target() {
    let a = link("s", "t");
    let owned = SymlinkDescription {
        source: "s".to_string(),
        target: SymbolicTarget { target: "t".to_string(), owner: Some(Owner::Id(7)) },
    };
    assert!(same_identity(&a, &owned));
    assert!(a == owned);
    assert!(!same_identity(&a, &link("s", "u")));
    assert!(!same_identity(&a, &link("r", "t")));
    assert!(a != link("s", "u"));
    assert!(decorated(Some("x"), None) == decorated(None, Some("y")));
}

#[test]
fn identity_orders_by_source_first() {
    assert!(identity_before(&link("a", "z"), &link("b", "a")));
    assert!(!identity_before(&link("b", "a"), &link("a", "z")));
    assert!(identity_before(&link("a", "1"), &link("a", "2")));
    assert!(!identity_before(&link("a", "2"), &link("a", "1")));
    assert!(!identity_before(&link("a", "1"), &link("a", "1")));
    assert!(link("a", "z") < link("b", "a"));
    assert!(link("a", "2") > link("a", "1"));
    assert_eq!(
        link("a", "1").partial_cmp(&link("a", "1")),
        Some(std::cmp::Ordering::Equal)
    );
    assert_eq!(
        link("a", "1").partial_cmp(&link("a", "2")),
        Some(std::cmp::Ordering::Less)
    );
    assert_eq!(
        link("b", "1").partial_cmp(&link("a", "2")),
        Some(std::cmp::Ordering::Greater)
    );
    assert_eq!(
        decorated(Some("x"), None).partial_cmp(&decorated(None, None)),
        Some(std::cmp::Ordering::Equal)
    );
}

#[test]
fn copies_keep_every_field() {
    let d = SymlinkDescription {
        source: "s".to_string(),
        target: SymbolicTarget { target: "t".to_string(), owner: Some(Owner::Name("me".to_string())) },
    };
    let c = d.clone();
    assert_eq!(c.source, "s");
    assert_eq!(c.target.target, "t");
    assert!(matches!(&c.target.owner, Some(Owner::Name(n)) if n == "me"));
    assert_eq!(d.source_path(), "s");
    assert_eq!(d.target_path(), "t");
    let t = decorated(Some("a"), Some("p")).duplicate();
    assert_eq!(t.cache, "cache/s");
    assert_eq!(t.target.append.as_deref(), Some("a"));
    assert_eq!(t.target.prepend.as_deref(), Some("p"));
    assert_eq!(copy_text(&Some("x".to_string())), Some("x".to_string()));
    assert_eq!(copy_text(&None), None);
    assert!(matches!(copy_owner(&Some(Owner::Id(3))), Some(Owner::Id(3))));
    assert!(copy_owner(&None).is_none());
}

#[test]
fn lower_bound_finds_the_place() {
    let set = vec![link("b", "1"), link("d", "1"), link("d", "3"), link("f", "1")];
    assert_eq!(lower_bound(&set, &link("a", "1")), 0);
    assert_eq!(lower_bound(&set, &link("b", "1")), 0);
    assert_eq!(lower_bound(&set, &link("c", "1")), 1);
    assert_eq!(lower_bound(&set, &link("d", "2")), 2);
    assert_eq!(lower_bound(&set, &link("d", "3")), 2);
    assert_eq!(lower_bound(&set, &link("g", "0")), 4);
    assert_eq!(lower_bound(&Vec::new(), &link("g", "0")), 0);
}

#[test]
fn contains_identity_finds_by_identity() {
    let set = vec![link("b", "1"), link("d", "1"), link("d", "3")];
    assert!(contains_identity(&set, &link("b", "1")));
    assert!(contains_identity(&set, &link("d", "3")));
    assert!(!contains_identity(&set, &link("d", "2")));
    assert!(!contains_identity(&set, &link("a", "1")));
    assert!(!contains_identity(&Vec::new(), &link("a", "1")));
}

#[test]
fn insert_ordered_keeps_order_and_what_is_there() {
    let mut set: Vec<SymlinkDescription> = Vec::new();
    insert_ordered(&mut set, link("m", "1"));
    insert_ordered(&mut set, link("a", "1"));
    insert_ordered(&mut set, link("z", "1"));
    insert_ordered(&mut set, link("m", "0"));
    insert_ordered(
        &mut set,
        SymlinkDescription {
            source: "a".to_string(),
            target: SymbolicTarget { target: "1".to_string(), owner: Some(Owner::Id(5)) },
        },
    );
    assert_eq!(set, vec![link("a", "1"), link("m", "0"), link("m", "1"), link("z", "1")]);
    assert!(set[0].target.owner.is_none());
}

#[test]
fn difference_and_intersection_split_a_set() {
    let from = vec![link("a", "1"), link("b", "1"), link("c", "1"), link("d", "1")];
    let others = vec![link("b", "1"), link("c", "2"), link("d", "1"), link("e", "1")];
    assert_eq!(difference(&from, &others), vec![link("a", "1"), link("c", "1")]);
    assert_eq!(intersection(&from, &others), vec![link("b", "1"), link("d", "1")]);
    assert_eq!(difference(&others, &from), vec![link("c", "2"), link("e", "1")]);
    assert_eq!(difference(&from, &Vec::new()), from);
    assert!(intersection(&from, &Vec::new()).is_empty());
    assert!(difference(&Vec::new(), &from).is_empty());
}

#[test]
fn deployment_text_joins_kind_and_paths() {
    assert_eq!(deployment_text("symlink", "a", "b"), "symlink a -> b");
    assert_eq!(deployment_text("", "", ""), "  -> ");
}

#[test]
fn describe_shows_both_paths_in_quotes() {
    assert_eq!(link("file1s", "file1t").describe(), "symlink \"file1s\" -> \"file1t\"");
    assert_eq!(decorated(None, None).describe(), "template \"s\" -> \"t\"");
    assert_eq!(link("a\"b", "c\\d").describe(), "symlink \"a\\\"b\" -> \"c\\\\d\"");
}
