use moove::path::{normalize, FilePath};

fn text_of(s: &str) -> String {
    FilePath::parse(s).to_text()
}

#[test]
fn parse_drops_repeated_and_trailing_separators() {
    assert_eq!(text_of("a//b/"), "a/b");
    assert_eq!(text_of("/a/./b"), "/a/b");
    assert_eq!(text_of("./a"), "./a");
    assert_eq!(text_of(""), "");
    assert_eq!(text_of("/"), "/");
}

#[test]
fn parse_agrees_with_std_components() {
    for s in ["a/b", "/a//b/", "./a/./b", "../a", "a/..", ".", "..", "/", "", "//a", "a/b/../c"] {
        let ours = FilePath::parse(s);
        let theirs: std::path::PathBuf = std::path::Path::new(s).components().collect();
        assert_eq!(ours.to_text(), theirs.to_string_lossy().to_string(), "for {:?}", s);
        assert_eq!(ours.len(), std::path::Path::new(s).components().count());
    }
}

#[test]
fn normalize_resolves_parent_components() {
    assert_eq!(normalize(&FilePath::parse("a/b/../c")).to_text(), "a/c");
    assert_eq!(normalize(&FilePath::parse("../a")).to_text(), "../a");
    assert_eq!(normalize(&FilePath::parse("/..")).to_text(), "/..");
}

#[test]
fn normalize_follows_the_path_from_left_to_right() {
    assert_eq!(normalize(&FilePath::parse("a/../..")).to_text(), "..");
    assert_eq!(normalize(&FilePath::parse("a/..")).to_text(), "");
    assert_eq!(normalize(&FilePath::parse("/a/../b/./c/..")).to_text(), "/b");
    assert_eq!(normalize(&FilePath::parse("./a/../b")).to_text(), "./b");
    assert_eq!(normalize(&FilePath::parse("/../a")).to_text(), "/../a");
}

#[test]
fn normalize_takes_away_names_only() {
    assert_eq!(normalize(&FilePath::parse("../../a")).to_text(), "../../a");
    assert_eq!(normalize(&FilePath::parse("../..")).to_text(), "../..");
    assert_eq!(normalize(&FilePath::parse("./../a")).to_text(), "../a");
    assert_eq!(normalize(&FilePath::parse("./..")).to_text(), "..");
    assert_eq!(normalize(&FilePath::parse("a/../../b/../..")).to_text(), "../..");
    assert_eq!(normalize(&FilePath::parse("/../..")).to_text(), "/../..");
    assert_eq!(normalize(&FilePath::parse("./a/..")).to_text(), ".");
    assert_eq!(normalize(&FilePath::parse("a/b/../../..")).to_text(), "..");
}

#[test]
fn normalize_twice_is_normalize_once() {
    for s in ["../../a", "./../a", "a/../..", "/a/../../b", "./a/..", "a/b/c/../../d", ""] {
        let once = normalize(&FilePath::parse(s));
        assert_eq!(normalize(&once), once, "for {:?}", s);
    }
}

#[test]
fn a_path_is_placed_in_a_directory() {
    let base = FilePath::parse("/work");
    for (path, place) in [
        ("", "/work"),
        (".", "/work"),
        ("sub", "/work/sub"),
        ("./sub", "/work/sub"),
        ("..", "/"),
        ("../other/x", "/other/x"),
        ("/work/sub", "/work/sub"),
        ("/work/sub/../x", "/work/x"),
        ("a/../b", "/work/b"),
        ("../../..", "/../.."),
    ] {
        assert_eq!(FilePath::parse(path).placed_in(&base).to_text(), place, "for {:?}", path);
    }
    assert!(FilePath::parse("/a").is_rooted());
    assert!(!FilePath::parse("a").is_rooted());
    assert!(!FilePath::new().is_rooted());
    assert_eq!(FilePath::parse("sub").placed_in(&FilePath::new()).to_text(), "sub");
}

/// Resolves `..` over the components that the standard library reads.
fn resolved_by_std(s: &str) -> std::path::PathBuf {
    let mut kept: Vec<std::path::Component> = Vec::new();
    for component in std::path::Path::new(s).components() {
        if let std::path::Component::ParentDir = component {
            while let Some(std::path::Component::CurDir) = kept.last() {
                kept.pop();
            }
            if let Some(std::path::Component::Normal(_)) = kept.last() {
                kept.pop();
                continue;
            }
        }
        kept.push(component);
    }
    kept.iter().collect()
}

#[test]
fn normalize_agrees_with_the_components_of_std() {
    for s in ["a/b/../c", "../a", "/..", "a/../..", "../..", "./..", "/a/../../b", "", "a/./b/.."] {
        let theirs = resolved_by_std(s);
        let ours = normalize(&FilePath::parse(s));
        assert_eq!(ours.to_text(), theirs.to_string_lossy().to_string(), "for {:?}", s);
        assert_eq!(ours, FilePath::parse(&theirs.to_string_lossy()), "for {:?}", s);
    }
}

#[test]
fn parent_and_file_name_agree_with_std() {
    for s in ["a/b", "a", "/a", "/", "", ".", "..", "a/..", "./a", "a/b/", "/a/b/c.txt"] {
        let ours = FilePath::parse(s);
        let theirs = std::path::Path::new(s);
        assert_eq!(
            ours.parent().map(|p| p.to_text()),
            theirs.parent().map(|p| p.to_string_lossy().to_string()),
            "parent of {:?}",
            s
        );
        assert_eq!(ours.has_parent(), theirs.parent().is_some(), "parent of {:?}", s);
        assert_eq!(
            ours.file_name(),
            theirs.file_name().map(|n| n.to_string_lossy().to_string()),
            "name of {:?}",
            s
        );
    }
}

#[test]
fn is_within_agrees_with_the_ancestors_of_std() {
    let texts = ["a/b/c", "a/b", "a", "", "/", "/a", "/a/b", "b", "a/bc", "./a", "a/b/"];
    for a in texts {
        for b in texts {
            let expected = std::path::Path::new(a).ancestors().any(|x| x == std::path::Path::new(b));
            assert_eq!(
                FilePath::parse(a).is_within(&FilePath::parse(b)),
                expected,
                "{:?} within {:?}",
                a,
                b
            );
        }
    }
}

#[test]
fn same_as_compares_components() {
    assert!(FilePath::parse("a//b/").same_as(&FilePath::parse("a/./b")));
    assert!(!FilePath::parse("a/b").same_as(&FilePath::parse("a/b/c")));
    assert!(!FilePath::parse("a/b").same_as(&FilePath::parse("/a/b")));
    assert!(!FilePath::parse("a/../b").same_as(&FilePath::parse("b")));
    assert_eq!(FilePath::new(), FilePath::parse(""));
    assert!(FilePath::new().is_empty());
    assert_eq!(FilePath::parse("/a/b").len(), 3);
    assert_eq!(FilePath::parse("a/b").clone(), FilePath::parse("a/b"));
}

#[test]
fn child_appends_a_name() {
    assert_eq!(FilePath::parse("/a").child("b.txt").to_text(), "/a/b.txt");
    assert_eq!(FilePath::parse("/").child("b").to_text(), "/b");
    assert_eq!(FilePath::new().child("b").to_text(), "b");
    assert_eq!(FilePath::parse(".").child("b").to_text(), "./b");
}

#[test]
fn comes_before_agrees_with_the_order_of_std_on_canonical_paths() {
    let texts = ["/a", "/a/b", "/a/b/c", "/a/c", "/ab", "/b", "/", "/a/B", "/a/b0", "/é", "/z"];
    for a in texts {
        for b in texts {
            assert_eq!(
                FilePath::parse(a).comes_before(&FilePath::parse(b)),
                std::path::Path::new(a) < std::path::Path::new(b),
                "{:?} before {:?}",
                a,
                b
            );
        }
    }
}

#[test]
fn paths_agree_with_std_on_every_short_text() {
    let alphabet = ['a', '.', '/', 'b'];
    let mut texts = vec![String::new()];
    for _ in 0..6 {
        let mut longer = Vec::new();
        for t in &texts {
            for c in alphabet {
                let mut s = t.clone();
                s.push(c);
                longer.push(s);
            }
        }
        texts.extend(longer);
        texts.sort();
        texts.dedup();
    }
    for s in &texts {
        let ours = FilePath::parse(s);
        let theirs = std::path::Path::new(s);
        let rebuilt: std::path::PathBuf = theirs.components().collect();
        assert_eq!(ours.to_text(), rebuilt.to_string_lossy(), "text of {:?}", s);
        assert_eq!(FilePath::parse(&ours.to_text()), ours, "reading back {:?}", s);
        assert_eq!(
            ours.file_name(),
            theirs.file_name().map(|n| n.to_string_lossy().to_string()),
            "name of {:?}",
            s
        );
        assert_eq!(
            ours.parent().map(|p| p.to_text()),
            rebuilt.parent().map(|p| p.to_string_lossy().to_string()),
            "parent of {:?}",
            s
        );
        let resolved = resolved_by_std(s);
        assert_eq!(normalize(&ours).to_text(), resolved.to_string_lossy(), "normalize {:?}", s);
    }
}
