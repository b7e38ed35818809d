//! The data that the library works on: options, sources, destinations and
//! operations, each with the plain value that contracts speak of.

use crate::path::{collapse, components, normalize, FilePath};
use vstd::prelude::*;

verus! {

/// What kind of entry a path named when it was looked at, without following
/// a symlink.
#[derive(Clone, Copy, Debug, PartialEq, Eq, Structural)]
pub enum EntryKind {
    File,
    Directory,
    Symlink,
    /// Anything else: a device, a socket, a pipe.
    Other,
}

/// The options of one run.
#[derive(Debug)]
pub struct CommandLine {
    /// Paths or wildcard patterns to move.
    pub paths: Vec<String>,
    /// Say what is being done.
    pub verbose: bool,
    /// List the sources in natural order.
    pub sort: bool,
    /// Show and keep the sources by their absolute paths.
    pub absolute: bool,
    /// Take directories themselves, not their contents.
    pub directory: bool,
    /// Take hidden entries too.
    pub with_hidden: bool,
    /// Leave out the sources whose text matches.
    pub exclude_pattern: Option<regex::Regex>,
    /// Copy in place of moving.
    pub copy: bool,
    /// Change nothing on disk.
    pub dry_run: bool,
    /// Fail on the first rejected edit in place of asking.
    pub oops: bool,
    /// Print nothing.
    pub quiet: bool,
}

impl Default for CommandLine {
    fn default() -> (r: Self)
        ensures
            r.paths@.len() == 0,
            !r.verbose,
            !r.sort,
            !r.absolute,
            !r.directory,
            !r.with_hidden,
            r.exclude_pattern is None,
            !r.copy,
            !r.dry_run,
            !r.oops,
            !r.quiet,
    {
        CommandLine {
            paths: Vec::new(),
            verbose: false,
            sort: false,
            absolute: false,
            directory: false,
            with_hidden: false,
            exclude_pattern: None,
            copy: false,
            dry_run: false,
            oops: false,
            quiet: false,
        }
    }
}

/// What an operation does. There is one kind.
#[derive(Clone, Copy, Debug, PartialEq, Eq, Structural)]
pub enum OperationKind {
    Move,
}

/// One entry that is offered for renaming.
#[derive(Debug, PartialEq)]
pub struct Source {
    /// The line that stands for the entry in the listing.
    pub text: String,
    /// The path by which the entry is reached.
    pub path: FilePath,
    /// The canonical absolute path, by which entries are told apart.
    pub abs: FilePath,
    /// What the entry was when it was found.
    pub meta: EntryKind,
}

/// The plain value of a [`Source`].
pub struct SourceView {
    pub text: Seq<char>,
    pub path: Seq<Seq<char>>,
    pub abs: Seq<Seq<char>>,
    pub meta: EntryKind,
}

impl View for Source {
    type V = SourceView;

    open spec fn view(&self) -> SourceView {
        SourceView { text: self.text@, path: self.path@, abs: self.abs@, meta: self.meta }
    }
}

impl Clone for Source {
    fn clone(&self) -> (r: Self)
        ensures
            r@ == self@,
    {
        Source {
            text: self.text.clone(),
            path: self.path.clone(),
            abs: self.abs.clone(),
            meta: self.meta,
        }
    }
}

/// Where an edited line sends its source: the line, and the path that it
/// names. The two always belong together: the path is what the line reads
/// as, with each `..` resolved.
#[derive(Debug, PartialEq)]
pub struct Destination {
    text: String,
    path: FilePath,
}

/// The plain value of a [`Destination`].
pub struct DestinationView {
    /// The edited line.
    pub text: Seq<char>,
    /// The path that the line names, with `..` resolved.
    pub path: Seq<Seq<char>>,
}

/// The destination that a line names.
pub open spec fn destination_of(line: Seq<char>) -> DestinationView {
    DestinationView { text: line, path: collapse(components(line)) }
}

impl View for Destination {
    type V = DestinationView;

    closed spec fn view(&self) -> DestinationView {
        DestinationView { text: self.text@, path: self.path@ }
    }
}

impl Clone for Destination {
    fn clone(&self) -> (r: Self)
        ensures
            r@ == self@,
    {
        proof {
            use_type_invariant(self);
        }
        Destination { text: self.text.clone(), path: self.path.clone() }
    }
}

impl Destination {
    #[verifier::type_invariant]
    spec fn is_consistent(self) -> bool {
        self.path@ == collapse(components(self.text@))
    }

    /// The destination that the line names.
    pub fn from_line(line: &str) -> (r: Destination)
        ensures
            r@ == destination_of(line@),
    {
        Destination { text: line.to_owned(), path: normalize(&FilePath::parse(line)) }
    }

    /// The edited line.
    pub fn text(&self) -> (r: &String)
        ensures
            r@ == self@.text,
            self@ == destination_of(r@),
    {
        proof {
            use_type_invariant(self);
        }
        &self.text
    }

    /// The path that the line names, with `..` resolved.
    pub fn path(&self) -> (r: &FilePath)
        ensures
            r@ == self@.path,
    {
        &self.path
    }
}

/// A source paired with the destination it is to reach.
#[derive(Debug, PartialEq)]
pub struct Operation {
    pub kind: OperationKind,
    pub src: Source,
    pub dst: Destination,
}

/// The plain value of an [`Operation`].
pub struct OperationView {
    pub kind: OperationKind,
    pub src: SourceView,
    pub dst: DestinationView,
}

impl View for Operation {
    type V = OperationView;

    open spec fn view(&self) -> OperationView {
        OperationView { kind: self.kind, src: self.src@, dst: self.dst@ }
    }
}

impl Clone for Operation {
    fn clone(&self) -> (r: Self)
        ensures
            r@ == self@,
    {
        Operation { kind: self.kind, src: self.src.clone(), dst: self.dst.clone() }
    }
}

} // verus!
