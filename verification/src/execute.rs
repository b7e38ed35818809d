//! What is to be done on disk for one accepted operation.
//!
//! An operation is carried out in two steps that each touch one directory
//! only: the source is first brought into the destination's directory under
//! its own name, where it lies in another one, and is then given its new
//! name there, where the name changes. Nothing here touches
//! the disk: the steps are handed out as values, in the order in which they
//! are to be made.

use crate::model::{
    destination_of, CommandLine, DestinationView, EntryKind, Operation, OperationKind,
    OperationView,
};
use crate::path::{collapse, has_parent, is_rooted, name_of, normalize, placed, FilePath};
use crate::spelling::{lemma_bare_text_is_one_component, lemma_placed_with_name};
use crate::text::{chars_of, lemma_views_push, views};
use vstd::prelude::*;

verus! {

/// One change on disk.
#[derive(Debug, PartialEq)]
pub enum Step {
    /// Create the directory and the missing directories above it, unless
    /// the path is there already.
    EnsureDirectory { dir: FilePath },
    /// Move the entry `from` into the directory `dir`, under its own name.
    MoveInto { from: FilePath, dir: FilePath },
    /// Copy the entry `from` into the directory `dir`, under its own name.
    CopyInto { from: FilePath, dir: FilePath },
    /// Give the entry `from` the name `to`, in the same directory.
    Rename { from: FilePath, to: FilePath },
    /// Copy the entry `from` to `to`, in the same directory. `kind` tells
    /// what the entry is: a directory is copied with all that lies below
    /// it, anything else as a file.
    Copy { from: FilePath, to: FilePath, kind: EntryKind },
}

/// The plain value of a [`Step`].
pub enum StepView {
    EnsureDirectory { dir: Seq<Seq<char>> },
    MoveInto { from: Seq<Seq<char>>, dir: Seq<Seq<char>> },
    CopyInto { from: Seq<Seq<char>>, dir: Seq<Seq<char>> },
    Rename { from: Seq<Seq<char>>, to: Seq<Seq<char>> },
    Copy { from: Seq<Seq<char>>, to: Seq<Seq<char>>, kind: EntryKind },
}

impl View for Step {
    type V = StepView;

    open spec fn view(&self) -> StepView {
        match self {
            Step::EnsureDirectory { dir } => StepView::EnsureDirectory { dir: dir@ },
            Step::MoveInto { from, dir } => StepView::MoveInto { from: from@, dir: dir@ },
            Step::CopyInto { from, dir } => StepView::CopyInto { from: from@, dir: dir@ },
            Step::Rename { from, to } => StepView::Rename { from: from@, to: to@ },
            Step::Copy { from, to, kind } => StepView::Copy { from: from@, to: to@, kind: *kind },
        }
    }
}

/// Why no steps can be given for an operation.
#[derive(Clone, Copy, Debug, PartialEq, Eq, Structural)]
pub enum MoveError {
    /// The destination is written with a separator and has no parent.
    DestinationWithoutParent,
    /// The source's path does not end in a name.
    SourceWithoutName,
    /// The destination's path does not end in a name.
    DestinationWithoutName,
}

/// The directory that the destination lies in: the parent of its path where
/// the line holds a separator, the current directory where it holds none.
pub open spec fn target_directory(dst: DestinationView, current_dir: Seq<Seq<char>>) -> Option<
    Seq<Seq<char>>,
> {
    if dst.text.contains('/') {
        if has_parent(dst.path) {
            Some(dst.path.drop_last())
        } else {
            None
        }
    } else {
        Some(current_dir)
    }
}

/// The place of the directory that the source lies in: that of the parent
/// of its path, which for a bare name is the current directory.
pub open spec fn source_place(src_path: Seq<Seq<char>>, current_dir: Seq<Seq<char>>) -> Seq<
    Seq<char>,
> {
    placed(src_path.drop_last(), current_dir)
}

/// The place of the directory that the destination lies in.
pub open spec fn target_place(dst: DestinationView, current_dir: Seq<Seq<char>>) -> Seq<
    Seq<char>,
> {
    if dst.text.contains('/') {
        placed(dst.path.drop_last(), current_dir)
    } else {
        collapse(current_dir)
    }
}

/// The source has to change its directory: the directory it lies in and
/// the directory of the destination are different places. Whether one of
/// them is written from the root and the other from the current directory
/// makes no difference.
pub open spec fn relocates(operation: OperationView, current_dir: Seq<Seq<char>>) -> bool {
    source_place(operation.src.path, current_dir) != target_place(operation.dst, current_dir)
}

/// The step that brings the source into `dir`, if it has to change its
/// directory.
pub open spec fn relocation(
    operation: OperationView,
    dir: Seq<Seq<char>>,
    copy: bool,
    current_dir: Seq<Seq<char>>,
) -> Seq<StepView> {
    if !relocates(operation, current_dir) {
        Seq::empty()
    } else if copy {
        seq![StepView::CopyInto { from: operation.src.path, dir }]
    } else {
        seq![StepView::MoveInto { from: operation.src.path, dir }]
    }
}

/// The step that gives the entry in `dir` its new name, if the name
/// changes. `kind` is what the entry is.
pub open spec fn renaming(
    dir: Seq<Seq<char>>,
    old: Seq<char>,
    new: Seq<char>,
    copy: bool,
    kind: EntryKind,
) -> Seq<StepView> {
    if old == new {
        Seq::empty()
    } else if copy {
        seq![StepView::Copy { from: dir.push(old), to: dir.push(new), kind }]
    } else {
        seq![StepView::Rename { from: dir.push(old), to: dir.push(new) }]
    }
}

/// The steps of one operation, or why there are none.
pub open spec fn steps_of(
    operation: OperationView,
    copy: bool,
    current_dir: Seq<Seq<char>>,
) -> Result<Seq<StepView>, MoveError> {
    match target_directory(operation.dst, current_dir) {
        None => Err(MoveError::DestinationWithoutParent),
        Some(dir) => match name_of(operation.src.path) {
            None => Err(MoveError::SourceWithoutName),
            Some(old) => match name_of(operation.dst.path) {
                None => Err(MoveError::DestinationWithoutName),
                Some(new) => Ok(
                    seq![StepView::EnsureDirectory { dir }] + relocation(
                        operation,
                        dir,
                        copy,
                        current_dir,
                    ) + renaming(dir, old, new, copy, operation.src.meta),
                ),
            },
        },
    }
}

/// The steps of one operation under the options: none in a dry run.
pub open spec fn steps_under(
    operation: OperationView,
    dry_run: bool,
    copy: bool,
    current_dir: Seq<Seq<char>>,
) -> Result<Seq<StepView>, MoveError> {
    if dry_run {
        Ok(Seq::empty())
    } else {
        steps_of(operation, copy, current_dir)
    }
}

/// The result `r` is the expected one: the same error, or steps with the
/// expected plain values.
pub open spec fn gives(
    r: Result<Vec<Step>, MoveError>,
    expected: Result<Seq<StepView>, MoveError>,
) -> bool {
    match r {
        Ok(steps) => expected == Ok::<Seq<StepView>, MoveError>(views(steps@)),
        Err(e) => expected == Err::<Seq<StepView>, MoveError>(e),
    }
}

/// Tells whether the text holds the separator `/`.
pub fn holds_separator(text: &str) -> (r: bool)
    ensures
        r == text@.contains('/'),
{
    let v = chars_of(text);
    let mut i: usize = 0;
    while i < v.len()
        invariant
            i <= v.len(),
            v@ == text@,
            forall|j: int| 0 <= j < i ==> v@[j] != '/',
        decreases v.len() - i,
    {
        if v[i] == '/' {
            return true;
        }
        i += 1;
    }
    false
}

/// The steps that carry out `operation`, in order: the destination's
/// directory is made sure of; the source is moved (with `args.copy`,
/// copied) into it where it lies in another directory; and it is renamed
/// (copied to its new name) there where the name changes. The directory of
/// a source or of a destination that is written without a directory is the
/// current directory.
pub fn execute_move(operation: &Operation, args: &CommandLine, current_dir: &FilePath) -> (r:
    Result<Vec<Step>, MoveError>)
    ensures
        gives(r, steps_of(operation@, args.copy, current_dir@)),
{
    let src = &operation.src;
    let dst = &operation.dst;
    let held = holds_separator(dst.text().as_str());
    let dir = if held {
        match dst.path().parent() {
            Some(parent) => parent,
            None => {
                return Err(MoveError::DestinationWithoutParent);
            },
        }
    } else {
        current_dir.clone()
    };
    let lies_in = match src.path.parent() {
        Some(parent) => parent,
        None => {
            return Err(MoveError::SourceWithoutName);
        },
    };
    let old = match src.path.file_name() {
        Some(name) => name,
        None => {
            return Err(MoveError::SourceWithoutName);
        },
    };
    let new = match dst.path().file_name() {
        Some(name) => name,
        None => {
            return Err(MoveError::DestinationWithoutName);
        },
    };
    let mut steps: Vec<Step> = Vec::new();
    let ensure = Step::EnsureDirectory { dir: dir.clone() };
    proof {
        lemma_views_push(steps@, ensure);
    }
    steps.push(ensure);
    assert(views(steps@) =~= seq![StepView::EnsureDirectory { dir: dir@ }]);
    let from_place = lies_in.placed_in(current_dir);
    let to_place = if held {
        dir.placed_in(current_dir)
    } else {
        normalize(current_dir)
    };
    if !from_place.same_as(&to_place) {
        let step = if args.copy {
            Step::CopyInto { from: src.path.clone(), dir: dir.clone() }
        } else {
            Step::MoveInto { from: src.path.clone(), dir: dir.clone() }
        };
        proof {
            lemma_views_push(steps@, step);
        }
        steps.push(step);
    }
    assert(views(steps@) =~= seq![StepView::EnsureDirectory { dir: dir@ }] + relocation(
        operation@,
        dir@,
        args.copy,
        current_dir@,
    ));
    if old != new {
        let from = dir.child(old.as_str());
        let to = dir.child(new.as_str());
        let step = if args.copy {
            Step::Copy { from, to, kind: src.meta }
        } else {
            Step::Rename { from, to }
        };
        proof {
            lemma_views_push(steps@, step);
        }
        steps.push(step);
    }
    assert(views(steps@) =~= seq![StepView::EnsureDirectory { dir: dir@ }] + relocation(
        operation@,
        dir@,
        args.copy,
        current_dir@,
    ) + renaming(dir@, old@, new@, args.copy, src.meta));
    Ok(steps)
}

/// The steps that carry out `operation` under the options `args`: none in a
/// dry run, those of [`execute_move`] otherwise.
pub fn execute_operation(operation: &Operation, args: &CommandLine, current_dir: &FilePath) -> (r:
    Result<Vec<Step>, MoveError>)
    ensures
        gives(r, steps_under(operation@, args.dry_run, args.copy, current_dir@)),
{
    match operation.kind {
        OperationKind::Move => {
            if args.dry_run {
                let none: Vec<Step> = Vec::new();
                assert(views(none@) =~= Seq::<StepView>::empty());
                return Ok(none);
            }
            execute_move(operation, args, current_dir)
        },
    }
}

/// The step stays in the directory `dir`: it makes sure of `dir`, brings
/// `source` into `dir`, or gives something in `dir` the name `name` in
/// `dir`.
pub open spec fn stays_in(
    step: StepView,
    dir: Seq<Seq<char>>,
    source: Seq<Seq<char>>,
    name: Seq<char>,
) -> bool {
    match step {
        StepView::EnsureDirectory { dir: made } => made == dir,
        StepView::MoveInto { from, dir: into } => from == source && into == dir,
        StepView::CopyInto { from, dir: into } => from == source && into == dir,
        StepView::Rename { from, to } => from.drop_last() == dir && to == dir.push(name),
        StepView::Copy { from, to, kind } => from.drop_last() == dir && to == dir.push(name),
    }
}

/// The step brings an entry into a directory.
pub open spec fn brings_in(step: StepView) -> bool {
    step is MoveInto || step is CopyInto
}

/// The steps of an operation touch one directory only, that of the
/// destination: it is made sure of first, the source is brought into it
/// under its own name, and the new name is given inside it. The source is
/// brought in exactly where it lies in another place than the destination's
/// directory, and it is given its name exactly where the name changes.
/// Where the line holds a separator, the place that is reached in the end
/// is the destination's path itself; where it holds none, it is the
/// destination's name in the current directory.
pub proof fn lemma_steps_stay_in_one_directory(
    operation: OperationView,
    copy: bool,
    current_dir: Seq<Seq<char>>,
)
    requires
        steps_of(operation, copy, current_dir) is Ok,
    ensures
        ({
            let steps = steps_of(operation, copy, current_dir)->Ok_0;
            let dir = target_directory(operation.dst, current_dir)->0;
            let old = name_of(operation.src.path)->0;
            let name = name_of(operation.dst.path)->0;
            let moved: int = if relocates(operation, current_dir) {
                1
            } else {
                0
            };
            let named: int = if old != name {
                1
            } else {
                0
            };
            &&& steps.len() == 1 + moved + named
            &&& steps[0] == (StepView::EnsureDirectory { dir })
            &&& forall|k: int|
                0 <= k < steps.len() ==> stays_in(
                    #[trigger] steps[k],
                    dir,
                    operation.src.path,
                    name,
                )
            &&& relocates(operation, current_dir) ==> brings_in(steps[1])
            &&& old != name ==> !brings_in(steps.last()) && steps.len() > 1
            &&& operation.dst.text.contains('/') ==> dir.push(name) == operation.dst.path
            &&& !operation.dst.text.contains('/') ==> dir == current_dir
        }),
{
    let steps = steps_of(operation, copy, current_dir)->Ok_0;
    let dir = target_directory(operation.dst, current_dir)->0;
    let old = name_of(operation.src.path)->0;
    let name = name_of(operation.dst.path)->0;
    let first = seq![StepView::EnsureDirectory { dir }];
    let second = relocation(operation, dir, copy, current_dir);
    let third = renaming(dir, old, name, copy, operation.src.meta);
    assert(steps == first + second + third);
    assert forall|k: int| 0 <= k < steps.len() implies stays_in(
        #[trigger] steps[k],
        dir,
        operation.src.path,
        name,
    ) by {
        if k == 0 {
        } else if k < 1 + second.len() {
            assert(steps[k] == second[k - 1]);
        } else {
            assert(steps[k] == third[k - 1 - second.len()]);
            assert(dir.push(old).drop_last() =~= dir);
        }
    }
    if relocates(operation, current_dir) {
        assert(steps[1] == second[0]);
    }
    if old != name {
        assert(steps.last() == third[0]);
    }
    if operation.dst.text.contains('/') {
        assert(operation.dst.path.drop_last().push(operation.dst.path.last())
            =~= operation.dst.path);
    }
}

/// The steps lead from the source to the destination. The name is given
/// to what lies at the source's own place, or at the place that the source
/// was brought to; and what gets the name lies, in the end, at the place
/// that the destination's path names. The current directory is given from
/// the root.
pub proof fn lemma_steps_lead_to_the_destination(
    operation: OperationView,
    copy: bool,
    current_dir: Seq<Seq<char>>,
)
    requires
        steps_of(operation, copy, current_dir) is Ok,
        operation.dst == destination_of(operation.dst.text),
        is_rooted(current_dir),
    ensures
        ({
            let dir = target_directory(operation.dst, current_dir)->0;
            let old = name_of(operation.src.path)->0;
            let name = name_of(operation.dst.path)->0;
            &&& placed(dir, current_dir) == target_place(operation.dst, current_dir)
            &&& !relocates(operation, current_dir) ==> placed(dir.push(old), current_dir)
                == placed(operation.src.path, current_dir)
            &&& placed(dir.push(name), current_dir) == placed(operation.dst.path, current_dir)
        }),
{
    let dir = target_directory(operation.dst, current_dir)->0;
    let src = operation.src.path;
    let dst = operation.dst.path;
    let old = name_of(src)->0;
    let name = name_of(dst)->0;
    assert(seq![old].last() == old);
    assert(seq![name].last() == name);
    lemma_placed_with_name(dir, current_dir, old);
    lemma_placed_with_name(dir, current_dir, name);
    lemma_placed_with_name(src.drop_last(), current_dir, old);
    assert(src.drop_last().push(old) =~= src);
    if operation.dst.text.contains('/') {
        assert(dst.drop_last().push(name) =~= dst);
    } else {
        lemma_bare_text_is_one_component(operation.dst.text);
        assert(dst =~= Seq::<Seq<char>>::empty().push(name));
        lemma_placed_with_name(Seq::empty(), current_dir, name);
        assert(current_dir + Seq::<Seq<char>>::empty() =~= current_dir);
    }
}

} // verus!
