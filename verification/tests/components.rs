use utf8_path::component::Utf8Component;
use utf8_path::parse::{parse_unix, render_unix};
use utf8_path::unix::Utf8UnixComponent;
use std::cmp::Ordering;

fn predicates(c: &Utf8UnixComponent) -> (bool, bool, bool, bool) {
    (c.is_root(), c.is_parent(), c.is_current(), c.is_normal())
}

#[test]
fn unix_grammar_scenario() {
    let comps = parse_unix("/my/../path/./here.txt");
    assert_eq!(comps.len(), 6);
    assert_eq!(comps[0], Utf8UnixComponent::RootDir);
    assert_eq!(comps[1], Utf8UnixComponent::Normal("my"));
    assert_eq!(comps[2], Utf8UnixComponent::ParentDir);
    assert_eq!(comps[3], Utf8UnixComponent::Normal("path"));
    assert_eq!(comps[4], Utf8UnixComponent::CurDir);
    assert_eq!(comps[5], Utf8UnixComponent::Normal("here.txt"));
    assert_eq!(predicates(&comps[0]), (true, false, false, false));
    assert_eq!(predicates(&comps[2]), (false, true, false, false));
    assert_eq!(predicates(&comps[4]), (false, false, true, false));
    assert_eq!(predicates(&comps[5]), (false, false, false, true));
    assert_eq!(comps[0].as_str(), "/");
    assert_eq!(comps[2].as_str(), "..");
    assert_eq!(comps[4].as_str(), ".");
    assert_eq!(comps[5].as_str(), "here.txt");
}

#[test]
fn empty_input_yields_no_components() {
    let comps = parse_unix("");
    assert!(comps.is_empty());
    assert_eq!(render_unix(&comps), "");
}

#[test]
fn synthesized_sequence_matches_parsed() {
    let built = vec![
        Utf8UnixComponent::root(),
        Utf8UnixComponent::parent(),
    ];
    let rendered = render_unix(&built);
    assert_eq!(rendered, "/..");
    let parsed = parse_unix("/..");
    assert_eq!(parsed, built);
    assert_eq!(render_unix(&parsed), rendered);
}

#[test]
fn constructors_classify_correctly() {
    let root = Utf8UnixComponent::root();
    let parent = Utf8UnixComponent::parent();
    let current = Utf8UnixComponent::current();
    assert_eq!(predicates(&root), (true, false, false, false));
    assert_eq!(predicates(&parent), (false, true, false, false));
    assert_eq!(predicates(&current), (false, false, true, false));
    assert_eq!(root.as_str(), "/");
    assert_eq!(parent.as_str(), "..");
    assert_eq!(current.as_str(), ".");
}

#[test]
fn length_consistency() {
    let root = Utf8UnixComponent::root();
    assert_eq!(root.len(), 1);
    assert_eq!(root.len(), root.as_str().len());
    assert!(!root.is_empty());

    let parent = Utf8UnixComponent::parent();
    assert_eq!(parent.len(), 2);
    assert_eq!(parent.len(), parent.as_str().len());

    let named = Utf8UnixComponent::Normal("héllo");
    assert_eq!(named.len(), 6);
    assert_eq!(named.len(), named.as_str().len());
    assert!(!named.is_empty());

    let degenerate = Utf8UnixComponent::Normal("");
    assert_eq!(degenerate.len(), 0);
    assert!(degenerate.is_empty());
}

#[test]
fn equality_is_structural() {
    let source_a = String::from("name/x");
    let source_b = String::from("other/name");
    let a = parse_unix(&source_a);
    let b = parse_unix(&source_b);
    assert_eq!(a[0], b[1]);
    assert_ne!(a[0], a[1]);
    assert_ne!(
        Utf8UnixComponent::Normal("."),
        Utf8UnixComponent::CurDir
    );
}

#[test]
fn ordering_is_total_and_consistent() {
    let root = Utf8UnixComponent::root();
    let parent = Utf8UnixComponent::parent();
    let current = Utf8UnixComponent::current();
    let apple = Utf8UnixComponent::Normal("apple");
    let banana = Utf8UnixComponent::Normal("banana");

    assert!(root < parent);
    assert!(parent < current);
    assert!(current < apple);
    assert!(apple < banana);
    assert!(root < banana);
    assert!(banana > apple);
    assert_eq!(apple.partial_cmp(&apple), Some(Ordering::Equal));
    assert_eq!(apple.partial_cmp(&banana), Some(Ordering::Less));
    assert_eq!(banana.partial_cmp(&apple), Some(Ordering::Greater));
    assert_eq!(apple.compare(&banana), Ordering::Less);
    assert_eq!(root.compare(&root), Ordering::Equal);
    assert!(!(apple < apple));
    assert!(!(apple > apple));

    let short = Utf8UnixComponent::Normal("ab");
    let long = Utf8UnixComponent::Normal("abc");
    assert!(short < long);
}

#[test]
fn components_sort_into_classification_order() {
    let mut v = vec![
        Utf8UnixComponent::Normal("b"),
        Utf8UnixComponent::CurDir,
        Utf8UnixComponent::Normal("a"),
        Utf8UnixComponent::RootDir,
        Utf8UnixComponent::ParentDir,
    ];
    v.sort();
    assert_eq!(
        v,
        vec![
            Utf8UnixComponent::RootDir,
            Utf8UnixComponent::ParentDir,
            Utf8UnixComponent::CurDir,
            Utf8UnixComponent::Normal("a"),
            Utf8UnixComponent::Normal("b"),
        ]
    );
}

#[test]
fn round_trip_is_lexically_faithful() {
    let raw = "a/b/../c";
    let comps = parse_unix(raw);
    assert_eq!(render_unix(&comps), raw);

    let again = parse_unix("/my/../path/./here.txt");
    assert_eq!(render_unix(&again), "/my/../path/./here.txt");
}

#[test]
fn round_trip_normalizes_separator_runs() {
    let comps = parse_unix("a//b/");
    assert_eq!(comps.len(), 2);
    assert_eq!(render_unix(&comps), "a/b");

    let rendered = render_unix(&comps);
    let reparsed = parse_unix(&rendered);
    assert_eq!(reparsed, comps);

    assert_eq!(render_unix(&parse_unix("/")), "/");
    assert_eq!(render_unix(&parse_unix("//x")), "/x");
    assert_eq!(render_unix(&parse_unix("x/")), "x");
}

#[test]
fn relative_paths_have_no_root() {
    let comps = parse_unix("./a/..");
    assert_eq!(comps.len(), 3);
    assert_eq!(comps[0], Utf8UnixComponent::CurDir);
    assert_eq!(comps[1], Utf8UnixComponent::Normal("a"));
    assert_eq!(comps[2], Utf8UnixComponent::ParentDir);
    assert!(comps.iter().all(|c| !c.is_root()));
}

#[test]
fn dot_runs_classify_by_exact_spelling() {
    assert_eq!(parse_unix("."), vec![Utf8UnixComponent::CurDir]);
    assert_eq!(parse_unix(".."), vec![Utf8UnixComponent::ParentDir]);
    assert_eq!(parse_unix("..."), vec![Utf8UnixComponent::Normal("...")]);
    assert_eq!(parse_unix("a.b"), vec![Utf8UnixComponent::Normal("a.b")]);
    assert_eq!(
        parse_unix("/."),
        vec![Utf8UnixComponent::RootDir, Utf8UnixComponent::CurDir]
    );
    assert_eq!(render_unix(&parse_unix("/.")), "/.");
}

#[test]
fn normal_text_borrows_from_source() {
    let source = String::from("dir/file.txt");
    let comps = parse_unix(&source);
    assert_eq!(comps.len(), 2);
    let text = comps[1].as_str();
    assert_eq!(text, "file.txt");
    assert_eq!(text.as_ptr(), source[4..].as_ptr());
}

#[test]
fn multibyte_components() {
    let comps = parse_unix("/день/…/ré");
    assert_eq!(comps.len(), 4);
    assert_eq!(comps[1], Utf8UnixComponent::Normal("день"));
    assert_eq!(comps[2], Utf8UnixComponent::Normal("…"));
    assert_eq!(comps[3], Utf8UnixComponent::Normal("ré"));
    assert_eq!(comps[1].len(), "день".len());
    assert_eq!(render_unix(&comps), "/день/…/ré");
}
