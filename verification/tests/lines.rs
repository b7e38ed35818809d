use moove::edit::{listing, operations_from, prompt_redo, read_lines, Edit, EditError};
use moove::model::{Destination, EntryKind, OperationKind, Source};
use moove::path::FilePath;
use moove::validate::{has_trailing_separator, ConflictKind};

fn source(text: &str, meta: EntryKind) -> Source {
    Source {
        text: text.to_string(),
        path: FilePath::parse(text),
        abs: FilePath::parse(&format!("/work/{}", text)),
        meta,
    }
}

fn edit(line: &str, exists: bool) -> Edit {
    Edit { line: line.to_string(), exists }
}

fn files(texts: &[&str]) -> Vec<Source> {
    texts.iter().map(|t| source(t, EntryKind::File)).collect()
}

#[test]
fn listing_has_one_line_for_each_source() {
    let sources = vec![
        source("a.txt", EntryKind::File),
        source("dir", EntryKind::Directory),
        source("link", EntryKind::Symlink),
        source("pipe", EntryKind::Other),
    ];
    assert_eq!(listing(&sources), "a.txt\ndir/\nlink\npipe");
}

#[test]
fn listing_of_no_source_is_empty() {
    assert_eq!(listing(&Vec::new()), "");
    assert_eq!(listing(&files(&["only"])), "only");
}

#[test]
fn listing_adds_no_second_separator() {
    assert_eq!(listing(&vec![source("dir/", EntryKind::Directory)]), "dir/");
}

#[test]
fn lines_are_trimmed_and_blank_lines_dropped() {
    let lines = read_lines("  a.txt \n\n dir/ \r\n\tsub\\dir\\\\\n   \n\u{3000}last//\u{a0}");
    assert_eq!(lines, vec!["a.txt", "dir", "sub\\dir", "last"]);
}

#[test]
fn a_line_of_separators_is_an_empty_line() {
    assert_eq!(read_lines(" / \nx"), vec!["", "x"]);
    assert_eq!(read_lines(""), Vec::<String>::new());
    assert_eq!(read_lines("\n\n"), Vec::<String>::new());
}

#[test]
fn separators_inside_a_line_stay() {
    assert_eq!(read_lines("a/b//c/"), vec!["a/b//c"]);
}

#[test]
fn the_destination_of_a_line_has_its_parent_components_resolved() {
    let d = Destination::from_line("x/y/../renamed.txt");
    assert_eq!(d.text(), "x/y/../renamed.txt");
    assert_eq!(d.path().to_text(), "x/renamed.txt");
}

#[test]
fn an_untouched_listing_asks_for_nothing() {
    let sources = vec![
        source("a.txt", EntryKind::File),
        source("dir", EntryKind::Directory),
        source("sub/b.txt", EntryKind::File),
    ];
    let lines = read_lines(&listing(&sources));
    assert_eq!(lines, vec!["a.txt", "dir", "sub/b.txt"]);
    let edits: Vec<Edit> = lines.iter().map(|l| edit(l, true)).collect();
    assert_eq!(operations_from(&sources, &edits), Ok(vec![]));
}

#[test]
fn a_line_that_spells_the_source_otherwise_asks_for_nothing() {
    let sources = files(&["sub/b.txt", "c.txt"]);
    let edits = vec![edit("sub/./x/../b.txt", true), edit("/work/c.txt", true)];
    assert_eq!(operations_from(&sources, &edits), Ok(vec![]));
}

#[test]
fn changed_lines_become_operations_in_order() {
    let sources = files(&["a.txt", "b.txt", "c.txt"]);
    let edits = vec![edit("z.txt", false), edit("b.txt", true), edit("new/../y.txt", false)];
    let operations = operations_from(&sources, &edits).unwrap();
    assert_eq!(operations.len(), 2);
    assert_eq!(operations[0].kind, OperationKind::Move);
    assert_eq!(operations[0].src, sources[0]);
    assert_eq!(operations[0].dst.text(), "z.txt");
    assert_eq!(operations[0].dst.path(), &FilePath::parse("z.txt"));
    assert_eq!(operations[1].src, sources[2]);
    assert_eq!(operations[1].dst.text(), "new/../y.txt");
    assert_eq!(operations[1].dst.path(), &FilePath::parse("y.txt"));
}

#[test]
fn another_number_of_lines_is_refused() {
    let sources = files(&["a.txt", "b.txt"]);
    assert_eq!(
        operations_from(&sources, &vec![edit("x.txt", false)]),
        Err(EditError::LineCount { lines: 1, sources: 2 })
    );
    assert_eq!(
        operations_from(&sources, &vec![edit("a.txt", true), edit("b.txt", true), edit("c", false)]),
        Err(EditError::LineCount { lines: 3, sources: 2 })
    );
    assert_eq!(
        operations_from(&sources, &vec![]),
        Err(EditError::LineCount { lines: 0, sources: 2 })
    );
}

#[test]
fn a_swap_is_refused_for_the_name_that_is_still_taken() {
    let sources = files(&["p", "q"]);
    let edits = vec![edit("q", true), edit("free", false)];
    assert_eq!(
        operations_from(&sources, &edits),
        Err(EditError::Conflict { index: 0, kind: ConflictKind::DestinationExists })
    );
    let edits = vec![edit("free", false), edit("p", true)];
    assert_eq!(
        operations_from(&sources, &edits),
        Err(EditError::Conflict { index: 1, kind: ConflictKind::DestinationExists })
    );
}

#[test]
fn a_line_that_ends_in_a_separator_names_no_file() {
    assert!(has_trailing_separator("x/"));
    assert!(!has_trailing_separator("x"));
    assert!(!has_trailing_separator("x\\"));
    assert!(!has_trailing_separator(""));
    for kind in [EntryKind::File, EntryKind::Symlink] {
        assert_eq!(
            operations_from(&vec![source("a", kind)], &vec![edit("x/", false)]),
            Err(EditError::Conflict { index: 0, kind: ConflictKind::MissingName })
        );
    }
    let moved = operations_from(&vec![source("a", EntryKind::Directory)], &vec![edit("x/", false)]);
    assert_eq!(moved.unwrap().len(), 1);
}

#[test]
fn the_same_destination_twice_is_refused() {
    let sources = files(&["a", "b", "c"]);
    let edits = vec![edit("x", false), edit("y", false), edit("sub/../x", false)];
    assert_eq!(
        operations_from(&sources, &edits),
        Err(EditError::Conflict { index: 2, kind: ConflictKind::DuplicateDestination })
    );
}

#[test]
fn destinations_that_hold_one_another_are_refused() {
    let sources = files(&["a", "b"]);
    assert_eq!(
        operations_from(&sources, &vec![edit("d/x", false), edit("d", false)]),
        Err(EditError::Conflict { index: 1, kind: ConflictKind::NestedDestination })
    );
    assert_eq!(
        operations_from(&sources, &vec![edit("d", false), edit("d/x/y", false)]),
        Err(EditError::Conflict { index: 1, kind: ConflictKind::NestedDestination })
    );
    assert!(operations_from(&sources, &vec![edit("d/x", false), edit("d/y", false)]).is_ok());
    assert!(operations_from(&sources, &vec![edit("d", false), edit("dx", false)]).is_ok());
}

#[test]
fn a_source_does_not_go_below_itself() {
    let sources = vec![source("d", EntryKind::Directory)];
    assert_eq!(
        operations_from(&sources, &vec![edit("d/sub/d", false)]),
        Err(EditError::Conflict { index: 0, kind: ConflictKind::SourceContainsDestination })
    );
    assert!(operations_from(&sources, &vec![edit("e/d", false)]).is_ok());
}

#[test]
fn the_first_broken_rule_is_the_one_reported() {
    // The destination is taken by the batch and is on disk: the batch comes first.
    let sources = files(&["a", "b"]);
    assert_eq!(
        operations_from(&sources, &vec![edit("x", false), edit("x", true)]),
        Err(EditError::Conflict { index: 1, kind: ConflictKind::DuplicateDestination })
    );
    // The first rejected line ends the batch, whatever follows.
    assert_eq!(
        operations_from(&sources, &vec![edit("y", true), edit("y", true)]),
        Err(EditError::Conflict { index: 0, kind: ConflictKind::DestinationExists })
    );
}

#[test]
fn answers_to_the_question_whether_to_edit_again() {
    for no in ["a", "abort", "A", "Abort", "  ABORT \n", "aBoRt"] {
        assert_eq!(prompt_redo(no), Some(false), "{:?}", no);
    }
    for yes in ["", "\n", "e", "edit", "E", " Edit\r\n", "EDIT"] {
        assert_eq!(prompt_redo(yes), Some(true), "{:?}", yes);
    }
    for none in ["x", "ab", "abort!", "edi", "a b", "edit again", "ａ"] {
        assert_eq!(prompt_redo(none), None, "{:?}", none);
    }
}

/// The lines of a text as the standard library's trimming gives them.
fn lines_by_std(text: &str) -> Vec<String> {
    text.split('\n')
        .filter_map(|line| {
            let line = line.trim();
            if line.is_empty() {
                return None;
            }
            Some(line.trim_end_matches(['/', '\\']).to_string())
        })
        .collect()
}

#[test]
fn white_space_is_what_the_standard_library_trims() {
    for code in 0..0x3200u32 {
        if let Some(c) = char::from_u32(code) {
            let text = format!("{}a b{}", c, c);
            assert_eq!(read_lines(&text), lines_by_std(&text), "U+{:04X}", code);
        }
    }
    for c in ['\u{feff}', '\u{e000}', '\u{1f600}', '\u{10ffff}'] {
        let text = format!("{}a b{}", c, c);
        assert_eq!(read_lines(&text), lines_by_std(&text));
    }
}

#[test]
fn lines_agree_with_the_standard_library() {
    let pieces = ["", " ", "a", "/", "\\", "\n", "\r\n", "\t", "b c", "d/", "\u{a0}", "é"];
    for a in pieces {
        for b in pieces {
            for c in pieces {
                for d in pieces {
                    let text = format!("{}{}{}{}", a, b, c, d);
                    assert_eq!(read_lines(&text), lines_by_std(&text), "{:?}", text);
                }
            }
        }
    }
}

#[test]
fn answers_agree_with_trimming_and_lowering_of_the_standard_library() {
    let words = ["a", "abort", "e", "edit", "", "A", "ABORT", "Edit", "x", "ab", "edits", "É", "a\u{301}"];
    for word in words {
        for (before, after) in [("", ""), (" ", "\n"), ("\t", "\r\n"), ("", " \u{3000}")] {
            let line = format!("{}{}{}", before, word, after);
            let answer = line.trim().to_ascii_lowercase();
            let expected = if answer == "a" || answer == "abort" {
                Some(false)
            } else if answer.is_empty() || answer == "e" || answer == "edit" {
                Some(true)
            } else {
                None
            };
            assert_eq!(prompt_redo(&line), expected, "{:?}", line);
        }
    }
}
