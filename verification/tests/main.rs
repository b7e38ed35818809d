//! The library against a small tree of directories and files. The tree is
//! kept in memory: the steps that the library hands out are carried out on
//! it as a disk would carry them out.

use moove::collect::{
    list_files, strip_trailing_separators, Entry, Found, Globbed, Hit, InputError,
};
use moove::execute::Step;
use moove::model::EntryKind;
use moove::path::FilePath;
use moove::validate::ConflictKind;
use moove::{
    execute_move, execute_operation, is_operational, put_source, sources_from, CommandLine,
    Destination, Operation, OperationKind, Source,
};
use std::collections::BTreeMap;

/// The entries of a disk, each under its absolute path.
struct Tree {
    cwd: String,
    entries: BTreeMap<String, EntryKind>,
}

impl Tree {
    fn resolve(&self, path: &FilePath) -> String {
        let text = path.to_text();
        if text.starts_with('/') {
            text
        } else if text.is_empty() {
            self.cwd.clone()
        } else {
            format!("{}/{}", self.cwd, text)
        }
    }

    fn kind(&self, path: &FilePath) -> Option<EntryKind> {
        self.entries.get(&self.resolve(path)).copied()
    }

    fn is_there(&self, path: &FilePath) -> bool {
        self.kind(path).is_some()
    }

    fn is_file(&self, path: &FilePath) -> bool {
        self.kind(path) == Some(EntryKind::File)
    }

    fn is_dir(&self, path: &FilePath) -> bool {
        self.kind(path) == Some(EntryKind::Directory)
    }

    fn create_dir_all(&mut self, dir: &str) {
        let mut at = String::new();
        for part in dir.split('/').filter(|p| !p.is_empty()) {
            at.push('/');
            at.push_str(part);
            let there = self.entries.entry(at.clone()).or_insert(EntryKind::Directory);
            assert_eq!(*there, EntryKind::Directory, "{} is in the way", at);
        }
    }

    /// Gives the entry `from`, with all below it, the path `to`.
    fn relocate(&mut self, from: &str, to: &str, keep: bool) {
        assert!(self.entries.contains_key(from), "{} is missing", from);
        assert!(!self.entries.contains_key(to), "{} is there already", to);
        let below = format!("{}/", from);
        let moved: Vec<(String, EntryKind)> = self
            .entries
            .iter()
            .filter(|(k, _)| *k == from || k.starts_with(&below))
            .map(|(k, v)| (k.clone(), *v))
            .collect();
        for (k, v) in moved {
            if !keep {
                self.entries.remove(&k);
            }
            self.entries.insert(format!("{}{}", to, &k[from.len()..]), v);
        }
    }

    fn perform(&mut self, steps: &[Step]) {
        for step in steps {
            match step {
                Step::EnsureDirectory { dir } => {
                    if !self.is_there(dir) {
                        let dir = self.resolve(dir);
                        self.create_dir_all(&dir);
                    }
                }
                Step::MoveInto { from, dir } | Step::CopyInto { from, dir } => {
                    assert!(self.is_dir(dir));
                    let name = from.file_name().unwrap();
                    let to = format!("{}/{}", self.resolve(dir), name);
                    let from = self.resolve(from);
                    self.relocate(&from, &to, matches!(step, Step::CopyInto { .. }));
                }
                Step::Rename { from, to } => {
                    let (from, to) = (self.resolve(from), self.resolve(to));
                    self.relocate(&from, &to, false);
                }
                Step::Copy { from, to, kind } => {
                    assert_eq!(self.kind(from), Some(*kind));
                    let (from, to) = (self.resolve(from), self.resolve(to));
                    self.relocate(&from, &to, true);
                }
            }
        }
    }
}

/// A tree under a directory of its own, and how paths are written: from the
/// root, or from the current directory, which is then that directory.
struct Setup {
    sandbox: String,
    relative: bool,
    tree: Tree,
    args: CommandLine,
}

impl Setup {
    /// ```text
    /// {sandbox}/
    ///   1/
    ///   ├─1.txt
    ///   ├─11/
    ///   │  └─11.txt
    ///   ├─12/
    ///   │  └─12.txt
    ///   2/
    ///   ├─2.txt
    ///   ├─21/
    ///   │  ├─21.txt
    ///   │  └─211/
    ///   │      └─211.txt
    ///   └─22
    ///       └─22.txt
    /// ```
    fn init(key: &str, relative: bool) -> Setup {
        let sandbox = format!("/tmp/moove/test/{}", key);
        let cwd = if relative { sandbox.clone() } else { "/home/somebody".to_string() };
        let mut tree = Tree { cwd: cwd.clone(), entries: BTreeMap::new() };
        tree.create_dir_all(&cwd);
        for dir in ["1", "1/11", "1/12", "2", "2/21", "2/21/211", "2/22"] {
            let dir = format!("{}/{}", sandbox, dir);
            tree.create_dir_all(&dir);
            let name = dir.rsplit('/').next().unwrap().to_string();
            tree.entries.insert(format!("{}/{}.txt", dir, name), EntryKind::File);
        }
        let args = CommandLine { verbose: true, ..CommandLine::default() };
        Setup { sandbox, relative, tree, args }
    }

    fn cwd(&self) -> FilePath {
        FilePath::parse(&self.tree.cwd)
    }

    fn text(&self, s: &str) -> String {
        if self.relative {
            s.to_string()
        } else {
            format!("{}/{}", self.sandbox, s)
        }
    }

    fn source_from(&self, s: &str) -> Source {
        let path = FilePath::parse(&self.text(s));
        Source {
            text: self.text(s),
            abs: FilePath::parse(&format!("{}/{}", self.sandbox, s)),
            meta: self.tree.kind(&path).unwrap(),
            path,
        }
    }

    fn destination_from(&self, s: &str) -> Destination {
        Destination::from_line(&self.text(s))
    }

    fn operation_from(&self, src: &str, dst: &str) -> Operation {
        Operation {
            kind: OperationKind::Move,
            src: self.source_from(src),
            dst: self.destination_from(dst),
        }
    }

    fn check(&self, operations: &[Operation], new: &Operation) -> Result<(), ConflictKind> {
        is_operational(operations, new, self.tree.is_there(new.dst.path()))
    }

    /// What a pattern matches: the path that it spells, if it is there.
    fn glob(&self, pattern: &str) -> Globbed {
        let path = FilePath::parse(pattern);
        let there = pattern == "/" || (!pattern.is_empty() && self.tree.is_there(&path));
        let hits = if there {
            vec![Hit {
                path: pattern.to_string(),
                canonical: FilePath::parse(&self.tree.resolve(&path)),
            }]
        } else {
            vec![]
        };
        Globbed { pattern: pattern.to_string(), hits }
    }

    /// What is found at the listed paths, up to the first path at which
    /// nothing can be read.
    fn find(&self, paths: &[String]) -> Vec<Found> {
        let mut found = Vec::new();
        for listed in paths {
            let read = strip_trailing_separators(listed);
            if read.is_empty() || !self.tree.is_there(&FilePath::parse(&read)) {
                break;
            }
            let path = FilePath::parse(&read);
            let at = self.tree.resolve(&path);
            let below = format!("{}/", at);
            let kind = |p: &str| *self.tree.entries.get(p).unwrap();
            let mut children: Vec<Entry> = self
                .tree
                .entries
                .keys()
                .filter(|k| k.starts_with(&below) && !k[below.len()..].contains('/'))
                .map(|k| Entry {
                    path: format!("{}/{}", read, &k[below.len()..]),
                    abs: k.clone(),
                    meta: kind(k),
                    abs_meta: kind(k),
                })
                .collect();
            children.reverse();
            let entry =
                Entry { path: listed.clone(), abs: at.clone(), meta: kind(&at), abs_meta: kind(&at) };
            found.push(Found { entry, children });
        }
        found
    }

    /// The sources that the patterns give on this tree.
    fn sources(&self, patterns: &[&str]) -> Result<Vec<Source>, InputError> {
        let globbed: Vec<Globbed> = patterns.iter().map(|p| self.glob(p)).collect();
        let found = self.find(&list_files(&globbed).unwrap_or_default());
        sources_from(&self.args, &globbed, &found)
    }

    fn run_move(&mut self, operation: &Operation) {
        let steps = execute_move(operation, &self.args, &self.cwd()).unwrap();
        self.tree.perform(&steps);
    }
}

fn operate(mut setup: Setup) {
    let mut operations = Vec::new();
    for (src, dst) in [
        ("1/11/11.txt", "1/12/moved-11.txt"),
        ("1/12/12.txt", "1/11/moved-12.txt"),
        ("1/1.txt", "1/11/moved-1.txt"),
        ("2/21/211", "moved-211"),
    ] {
        let new_operation = setup.operation_from(src, dst);
        assert_eq!(setup.check(&operations, &new_operation), Ok(()));
        operations.push(new_operation);
    }
    // A destination below another destination of the batch is not accepted.
    let new_operation = setup.operation_from("2/22", "moved-211/moved-22");
    assert_eq!(setup.check(&operations, &new_operation), Err(ConflictKind::NestedDestination));
    for o in operations.iter() {
        let steps = execute_operation(o, &setup.args, &setup.cwd()).unwrap();
        setup.tree.perform(&steps);
    }
    for o in operations.iter() {
        assert!(setup.tree.is_there(o.dst.path()));
        assert!(!setup.tree.is_there(&o.src.path));
    }
    assert!(setup.tree.is_file(&FilePath::parse(&setup.text("moved-211/211.txt"))));
}

fn list_sources(setup: Setup) {
    let sources = setup.sources(&[&setup.text("1")]).unwrap();
    assert_eq!(sources.len(), 3);
    assert_eq!(sources[0].path, FilePath::parse(&setup.text("1/1.txt")));
    assert_eq!(sources[1].path, FilePath::parse(&setup.text("1/11")));
    assert_eq!(sources[2].path, FilePath::parse(&setup.text("1/12")));
}

#[test]
fn list_sources_normally() {
    list_sources(Setup::init("list_sources_normally", false));
}

#[test]
fn should_fail_to_list_sources() {
    let setup = Setup::init("should_fail_to_list_sources", false);
    let missing = setup.text("does not exist");
    assert_eq!(
        setup.sources(&[&missing]),
        Err(InputError::NoMatch { pattern: missing.clone() })
    );
    // The root is read without its trailing separator, where nothing is.
    assert_eq!(setup.sources(&["/"]), Err(InputError::Unreadable { path: String::new() }));
    let one = setup.text("1");
    assert_eq!(
        setup.sources(&[&one, &one]),
        Err(InputError::DuplicateSource { abs: format!("{}/1/1.txt", setup.sandbox) })
    );
    // The root itself is no source.
    let root = Entry {
        path: "/".to_string(),
        abs: "/".to_string(),
        meta: EntryKind::Directory,
        abs_meta: EntryKind::Directory,
    };
    let mut sources = Vec::new();
    assert_eq!(
        put_source(&mut sources, &root, &setup.args),
        Err(InputError::RootSource { path: "/".to_string() })
    );
    assert!(sources.is_empty());
}

#[test]
fn operate_normally() {
    operate(Setup::init("operate_normally", false));
}

#[test]
fn should_not_be_operational() {
    let setup = Setup::init("should_not_be_operational", false);
    let operations = vec![
        setup.operation_from("1/11/11.txt", "1/12/moved-11.txt"),
        setup.operation_from("1/12/12.txt", "1/11/moved-12.txt"),
        setup.operation_from("1/1.txt", "1/11/moved-1.txt"),
        setup.operation_from("2/21/211", "moved-211"),
        setup.operation_from("2/22", "moved-211/moved-22"),
    ];
    for (src, dst, why) in [
        ("1/11/11.txt", "1/11/11.txt", ConflictKind::DestinationExists),
        ("1/11/11.txt", "1/12/12.txt", ConflictKind::DestinationExists),
        ("1/11", "2/21/211", ConflictKind::DestinationExists),
        ("1/11", "moved-211", ConflictKind::DuplicateDestination),
    ] {
        assert_eq!(setup.check(&operations, &setup.operation_from(src, dst)), Err(why));
    }
}

fn moved(mut setup: Setup, src: &str, dst: &str, expected: Vec<Step>) -> (Setup, Operation) {
    let operation = setup.operation_from(src, dst);
    let steps = execute_move(&operation, &setup.args, &setup.cwd()).unwrap();
    assert_eq!(steps, expected);
    setup.run_move(&setup.operation_from(src, dst));
    (setup, operation)
}

fn path(setup: &Setup, s: &str) -> FilePath {
    FilePath::parse(&setup.text(s))
}

fn rename_file_in(setup: Setup) {
    let expected = vec![
        Step::EnsureDirectory { dir: path(&setup, "1/11") },
        Step::Rename { from: path(&setup, "1/11/11.txt"), to: path(&setup, "1/11/renamed-11.txt") },
    ];
    let (setup, operation) = moved(setup, "1/11/11.txt", "1/11/renamed-11.txt", expected);
    assert!(setup.tree.is_file(operation.dst.path()));
    assert!(!setup.tree.is_file(&operation.src.path));
}

fn rename_dir_in(setup: Setup) {
    let expected = vec![
        Step::EnsureDirectory { dir: path(&setup, "1") },
        Step::Rename { from: path(&setup, "1/11"), to: path(&setup, "1/renamed-11") },
    ];
    let (setup, operation) = moved(setup, "1/11", "1/renamed-11", expected);
    assert!(setup.tree.is_dir(operation.dst.path()));
    assert!(!setup.tree.is_dir(&operation.src.path));
}

fn rename_dir_with_sub_dirs_in(setup: Setup) {
    let operation = setup.operation_from("1", "renamed-1");
    let mut setup = setup;
    setup.run_move(&operation);
    assert!(setup.tree.is_dir(operation.dst.path()));
    assert!(!setup.tree.is_dir(&operation.src.path));
    // Everything below the directory is below its new name.
    assert!(setup.tree.is_file(&path(&setup, "renamed-1/11/11.txt")));
    assert!(setup.tree.is_dir(&path(&setup, "renamed-1/12")));
    assert!(!setup.tree.is_there(&path(&setup, "1/11/11.txt")));
}

fn move_and_rename_file_in(setup: Setup) {
    let expected = vec![
        Step::EnsureDirectory { dir: path(&setup, "1") },
        Step::MoveInto { from: path(&setup, "2/21/211/211.txt"), dir: path(&setup, "1") },
        Step::Rename { from: path(&setup, "1/211.txt"), to: path(&setup, "1/renamed-211.txt") },
    ];
    let (setup, operation) = moved(setup, "2/21/211/211.txt", "1/renamed-211.txt", expected);
    assert!(setup.tree.is_file(operation.dst.path()));
    assert!(!setup.tree.is_file(&operation.src.path));
}

fn move_and_rename_directory_in(setup: Setup) {
    let expected = vec![
        Step::EnsureDirectory { dir: path(&setup, "1") },
        Step::MoveInto { from: path(&setup, "2/22"), dir: path(&setup, "1") },
        Step::Rename { from: path(&setup, "1/22"), to: path(&setup, "1/3") },
    ];
    let (setup, operation) = moved(setup, "2/22", "1/3", expected);
    assert!(setup.tree.is_dir(operation.dst.path()));
    assert!(!setup.tree.is_dir(&operation.src.path));
    assert!(setup.tree.is_file(&path(&setup, "1/3/22.txt")));
}

#[test]
fn a_move_to_a_new_directory_under_a_new_name() {
    let mut setup = Setup::init("composed", true);
    setup.tree.create_dir_all("/tmp/moove/test/composed/a/b");
    setup.tree.entries.insert("/tmp/moove/test/composed/a/b/c.txt".to_string(), EntryKind::File);
    assert!(!setup.tree.is_there(&path(&setup, "x")));
    let operation = setup.operation_from("a/b/c.txt", "x/y/renamed.txt");
    assert_eq!(setup.check(&[], &operation), Ok(()));
    setup.run_move(&operation);
    assert!(setup.tree.is_dir(&path(&setup, "x/y")));
    assert!(!setup.tree.is_there(&path(&setup, "a/b/c.txt")));
    assert!(setup.tree.is_file(&path(&setup, "x/y/renamed.txt")));
    assert!(!setup.tree.is_there(&path(&setup, "x/y/c.txt")));
    assert!(setup.tree.is_dir(&path(&setup, "a/b")));
}

#[test]
fn a_copy_leaves_the_source_where_it_is() {
    let mut setup = Setup::init("copied", false);
    setup.args.copy = true;
    let operation = setup.operation_from("1/11/11.txt", "2/copy-11.txt");
    setup.run_move(&operation);
    assert!(setup.tree.is_file(&operation.src.path));
    assert!(setup.tree.is_file(operation.dst.path()));
}

#[test]
fn a_copy_of_a_directory_under_another_name_takes_all_below_it() {
    let mut setup = Setup::init("copied_dir", true);
    setup.args.copy = true;
    let operation = setup.operation_from("2/21", "2/twenty-one");
    let steps = execute_move(&operation, &setup.args, &setup.cwd()).unwrap();
    assert_eq!(
        steps,
        vec![
            Step::EnsureDirectory { dir: path(&setup, "2") },
            Step::Copy {
                from: path(&setup, "2/21"),
                to: path(&setup, "2/twenty-one"),
                kind: EntryKind::Directory,
            },
        ]
    );
    setup.tree.perform(&steps);
    assert!(setup.tree.is_file(&path(&setup, "2/twenty-one/211/211.txt")));
    assert!(setup.tree.is_file(&path(&setup, "2/21/211/211.txt")));
}

#[test]
fn a_bare_name_is_moved_out_of_the_current_directory() {
    let mut setup = Setup::init("bare", true);
    setup.tree.entries.insert("/tmp/moove/test/bare/a.txt".to_string(), EntryKind::File);
    let operation = setup.operation_from("a.txt", "sub/a.txt");
    assert_eq!(setup.check(&[], &operation), Ok(()));
    let steps = execute_move(&operation, &setup.args, &setup.cwd()).unwrap();
    assert_eq!(
        steps,
        vec![
            Step::EnsureDirectory { dir: path(&setup, "sub") },
            Step::MoveInto { from: path(&setup, "a.txt"), dir: path(&setup, "sub") },
        ]
    );
    setup.tree.perform(&steps);
    assert!(setup.tree.is_dir(&path(&setup, "sub")));
    assert!(setup.tree.is_file(&path(&setup, "sub/a.txt")));
    assert!(!setup.tree.is_there(&path(&setup, "a.txt")));
}

#[test]
fn two_spellings_of_one_directory_are_one_place() {
    // The source is written from the root, the line from the current
    // directory: the entry is renamed where it lies.
    let mut setup = Setup::init("spelled", true);
    let mut operation = setup.operation_from("1/1.txt", "1/one.txt");
    operation.src.path = FilePath::parse("/tmp/moove/test/spelled/1/1.txt");
    let steps = execute_move(&operation, &setup.args, &setup.cwd()).unwrap();
    assert_eq!(
        steps,
        vec![
            Step::EnsureDirectory { dir: path(&setup, "1") },
            Step::Rename { from: path(&setup, "1/1.txt"), to: path(&setup, "1/one.txt") },
        ]
    );
    setup.tree.perform(&steps);
    assert!(setup.tree.is_file(&path(&setup, "1/one.txt")));
    assert!(!setup.tree.is_there(&path(&setup, "1/1.txt")));
}

#[test]
fn rename_file() {
    rename_file_in(Setup::init("rename_file", false));
}

#[test]
fn rename_dir() {
    rename_dir_in(Setup::init("rename_dir", false));
}

#[test]
fn rename_dir_with_sub_dirs() {
    rename_dir_with_sub_dirs_in(Setup::init("rename_dir_with_sub_dirs", false));
}

#[test]
fn move_and_rename_file() {
    move_and_rename_file_in(Setup::init("move_and_rename_file", false));
}

#[test]
fn move_and_rename_directory() {
    move_and_rename_directory_in(Setup::init("move_and_rename_directory", false));
}

#[test]
fn dry_run() {
    let mut setup = Setup::init("dry_run", false);
    setup.args.dry_run = true;
    let operation = setup.operation_from("2/22", "1/3");
    let steps = execute_operation(&operation, &setup.args, &setup.cwd()).unwrap();
    assert!(steps.is_empty());
    setup.tree.perform(&steps);
    assert!(setup.tree.is_dir(&operation.src.path));
    assert!(!setup.tree.is_dir(operation.dst.path()));
}

#[test]
fn rel_list_sources_normally() {
    list_sources(Setup::init("list_sources_normally", true));
}

#[test]
fn rel_operate_normally() {
    operate(Setup::init("operate_normally", true));
}

#[test]
fn rel_rename_file() {
    rename_file_in(Setup::init("rename_file", true));
}

#[test]
fn rel_rename_dir() {
    rename_dir_in(Setup::init("rename_dir", true));
}

#[test]
fn rel_rename_dir_with_sub_dirs() {
    rename_dir_with_sub_dirs_in(Setup::init("rename_dir_with_sub_dirs", true));
}

#[test]
fn rel_move_and_rename_file() {
    move_and_rename_file_in(Setup::init("move_and_rename_file", true));
}

#[test]
fn rel_move_and_rename_directory() {
    move_and_rename_directory_in(Setup::init("move_and_rename_directory", true));
}
