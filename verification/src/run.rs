//! One run, from the listing to the last operation, as a machine that the
//! caller drives.
//!
//! The machine never touches the editor, the terminal or the disk. It says
//! what is to be done next (a [`Demand`]), the caller does it and reports
//! what came of it (an [`Event`]), and the machine decides how the run goes
//! on. Nothing is carried out before all lines are accepted, and the
//! operations are carried out in the order of their lines.

use crate::edit::{
    lemma_listing_reads_back, lemma_unedited_listing_gives_nothing, lines_of,
    listing, listing_of, operations_from, operations_of, prompt_redo, read_lines, redo_of, tidy,
    Edit, EditError, EditView,
};
use crate::execute::{execute_operation, steps_under, MoveError, Step, StepView};
use crate::model::{
    destination_of, CommandLine, Destination, Operation, OperationView, Source, SourceView,
};
use crate::path::FilePath;
use crate::text::{lemma_views_push, views};
use vstd::prelude::*;

verus! {

/// Why a run ends without its count.
#[derive(Clone, Copy, Debug, PartialEq, Eq, Structural)]
pub enum Failure {
    /// The edited lines were rejected, and the options forbid asking.
    Rejected { error: EditError },
    /// No steps can be given for the operation at `index`.
    Unmovable { index: usize, why: MoveError },
    /// The steps of the operation at `index` failed on disk.
    Disk { index: usize },
    /// The caller reported something that was not asked for.
    Unexpected,
}

/// What the caller is to do next.
#[derive(Debug, PartialEq)]
pub enum Demand {
    /// Hand the text to the editor and report the edited text.
    Edit { text: String },
    /// Look whether each of the paths is on disk and report the answers in
    /// the same order.
    Probe { paths: Vec<FilePath> },
    /// Tell the user why the lines were rejected, ask whether to edit
    /// again, and report the answer.
    Ask { error: EditError },
    /// Carry out the steps in order and report whether all succeeded.
    Perform { operation: Operation, steps: Vec<Step> },
    /// The run is over: so many operations were carried out, or it failed.
    Stop { outcome: Result<usize, Failure> },
}

/// The plain value of a [`Demand`].
pub enum DemandView {
    Edit { text: Seq<char> },
    Probe { paths: Seq<Seq<Seq<char>>> },
    Ask { error: EditError },
    Perform { operation: OperationView, steps: Seq<StepView> },
    Stop { outcome: Result<usize, Failure> },
}

impl View for Demand {
    type V = DemandView;

    open spec fn view(&self) -> DemandView {
        match self {
            Demand::Edit { text } => DemandView::Edit { text: text@ },
            Demand::Probe { paths } => DemandView::Probe { paths: views(paths@) },
            Demand::Ask { error } => DemandView::Ask { error: *error },
            Demand::Perform { operation, steps } => DemandView::Perform {
                operation: operation@,
                steps: views(steps@),
            },
            Demand::Stop { outcome } => DemandView::Stop { outcome: *outcome },
        }
    }
}

/// What came of the last demand.
#[derive(Debug)]
pub enum Event {
    /// The editor gave this text back.
    Edited { text: String },
    /// Whether each path is on disk, in the order asked.
    Probed { exists: Vec<bool> },
    /// The user answered with this line.
    Answered { line: String },
    /// The steps were carried out; `ok` tells whether all succeeded.
    Performed { ok: bool },
}

/// The plain value of an [`Event`].
pub enum EventView {
    Edited { text: Seq<char> },
    Probed { exists: Seq<bool> },
    Answered { line: Seq<char> },
    Performed { ok: bool },
}

impl View for Event {
    type V = EventView;

    open spec fn view(&self) -> EventView {
        match self {
            Event::Edited { text } => EventView::Edited { text: text@ },
            Event::Probed { exists } => EventView::Probed { exists: exists@ },
            Event::Answered { line } => EventView::Answered { line: line@ },
            Event::Performed { ok } => EventView::Performed { ok: *ok },
        }
    }
}

/// What a run waits for.
#[derive(Debug)]
pub enum Stage {
    /// For the text from the editor.
    Editing,
    /// For the answers about the destinations of the lines of `text`.
    Probing { text: String, lines: Vec<String> },
    /// For the user's answer, after `text` was rejected with `error`.
    Asking { text: String, error: EditError },
    /// For the steps of the operation at `next` to be carried out.
    Moving { operations: Vec<Operation>, next: usize },
    /// For nothing: the run is over.
    Finished,
}

/// The plain value of a [`Stage`].
pub enum StageView {
    Editing,
    Probing { text: Seq<char>, lines: Seq<Seq<char>> },
    Asking { text: Seq<char>, error: EditError },
    Moving { operations: Seq<OperationView>, next: usize },
    Finished,
}

impl View for Stage {
    type V = StageView;

    open spec fn view(&self) -> StageView {
        match self {
            Stage::Editing => StageView::Editing,
            Stage::Probing { text, lines } => StageView::Probing {
                text: text@,
                lines: views(lines@),
            },
            Stage::Asking { text, error } => StageView::Asking { text: text@, error: *error },
            Stage::Moving { operations, next } => StageView::Moving {
                operations: views(operations@),
                next: *next,
            },
            Stage::Finished => StageView::Finished,
        }
    }
}

/// A run: the sources, the options, the current directory, and what the
/// run waits for.
#[derive(Debug)]
pub struct Run {
    pub sources: Vec<Source>,
    pub args: CommandLine,
    pub current_dir: FilePath,
    pub stage: Stage,
}

/// The plain value of a [`Run`].
pub struct RunView {
    pub sources: Seq<SourceView>,
    pub args: CommandLine,
    pub current_dir: Seq<Seq<char>>,
    pub stage: StageView,
}

impl View for Run {
    type V = RunView;

    open spec fn view(&self) -> RunView {
        RunView {
            sources: views(self.sources@),
            args: self.args,
            current_dir: self.current_dir@,
            stage: self.stage@,
        }
    }
}

/// The run in another stage.
pub open spec fn at(run: RunView, stage: StageView) -> RunView {
    RunView { sources: run.sources, args: run.args, current_dir: run.current_dir, stage }
}

/// The lines with what is known of the places they name.
pub open spec fn edits_of(lines: Seq<Seq<char>>, exists: Seq<bool>) -> Seq<EditView> {
    Seq::new(lines.len(), |i: int| EditView { line: lines[i], exists: exists[i] })
}

/// The paths that the lines name.
pub open spec fn destinations_of(lines: Seq<Seq<char>>) -> Seq<Seq<Seq<char>>> {
    Seq::new(lines.len(), |i: int| destination_of(lines[i]).path)
}

/// How a run begins: the listing goes to the editor.
pub open spec fn begun(
    sources: Seq<SourceView>,
    args: CommandLine,
    current_dir: Seq<Seq<char>>,
) -> (RunView, DemandView) {
    (
        RunView { sources, args, current_dir, stage: StageView::Editing },
        DemandView::Edit { text: listing_of(sources) },
    )
}

/// What follows a rejection of `text`: the run fails where the options
/// forbid asking, and the user is asked otherwise.
pub open spec fn rejected(run: RunView, text: Seq<char>, error: EditError) -> (
    RunView,
    DemandView,
) {
    if run.args.oops {
        (
            at(run, StageView::Finished),
            DemandView::Stop { outcome: Err(Failure::Rejected { error }) },
        )
    } else {
        (at(run, StageView::Asking { text, error }), DemandView::Ask { error })
    }
}

/// The count that a run reports after `done` operations: none in a dry run.
pub open spec fn processed(run: RunView, done: usize) -> usize {
    if run.args.dry_run {
        0
    } else {
        done
    }
}

/// What follows when the operations before `next` are done: the steps of
/// the operation at `next` are handed out, or the run ends, with its count
/// where no operation is left and with a failure where no steps can be
/// given.
pub open spec fn proceeding(run: RunView, operations: Seq<OperationView>, next: usize) -> (
    RunView,
    DemandView,
) {
    if next >= operations.len() {
        (
            at(run, StageView::Finished),
            DemandView::Stop { outcome: Ok(processed(run, operations.len() as usize)) },
        )
    } else {
        match steps_under(
            operations[next as int],
            run.args.dry_run,
            run.args.copy,
            run.current_dir,
        ) {
            Err(error) => (
                at(run, StageView::Finished),
                DemandView::Stop { outcome: Err(Failure::Unmovable { index: next, why: error }) },
            ),
            Ok(steps) => (
                at(run, StageView::Moving { operations, next }),
                DemandView::Perform { operation: operations[next as int], steps },
            ),
        }
    }
}

/// How a run goes on when the caller reports `event`.
pub open spec fn after(run: RunView, event: EventView) -> (RunView, DemandView) {
    match (run.stage, event) {
        (StageView::Editing, EventView::Edited { text }) => {
            let lines = lines_of(text);
            if lines.len() != run.sources.len() {
                rejected(
                    run,
                    text,
                    EditError::LineCount {
                        lines: lines.len() as usize,
                        sources: run.sources.len() as usize,
                    },
                )
            } else {
                (
                    at(run, StageView::Probing { text, lines }),
                    DemandView::Probe { paths: destinations_of(lines) },
                )
            }
        },
        (StageView::Probing { text, lines }, EventView::Probed { exists }) => {
            if exists.len() != lines.len() {
                (
                    at(run, StageView::Finished),
                    DemandView::Stop { outcome: Err(Failure::Unexpected) },
                )
            } else {
                match operations_of(run.sources, edits_of(lines, exists)) {
                    Err(error) => rejected(run, text, error),
                    Ok(operations) => proceeding(run, operations, 0),
                }
            }
        },
        (StageView::Asking { text, error }, EventView::Answered { line }) => {
            match redo_of(line) {
                Some(true) => (at(run, StageView::Editing), DemandView::Edit { text }),
                Some(false) => (at(run, StageView::Finished), DemandView::Stop { outcome: Ok(0) }),
                None => (run, DemandView::Ask { error }),
            }
        },
        (StageView::Moving { operations, next }, EventView::Performed { ok }) => {
            if !ok {
                (
                    at(run, StageView::Finished),
                    DemandView::Stop { outcome: Err(Failure::Disk { index: next }) },
                )
            } else if next >= operations.len() {
                proceeding(run, operations, next)
            } else {
                proceeding(run, operations, (next + 1) as usize)
            }
        },
        _ => (at(run, StageView::Finished), DemandView::Stop { outcome: Err(Failure::Unexpected) }),
    }
}

impl Run {
    /// Begins a run over the sources: the first demand is to edit their
    /// listing.
    pub fn begin(sources: Vec<Source>, args: CommandLine, current_dir: FilePath) -> (r: (
        Run,
        Demand,
    ))
        ensures
            (r.0@, r.1@) == begun(views(sources@), args, current_dir@),
    {
        let text = listing(&sources);
        (Run { sources, args, current_dir, stage: Stage::Editing }, Demand::Edit { text })
    }

    /// The run in another stage.
    fn staged(self, stage: Stage) -> (r: Run)
        ensures
            r@ == at(self@, stage@),
    {
        Run { sources: self.sources, args: self.args, current_dir: self.current_dir, stage }
    }

    /// Ends the run.
    fn stop(self, outcome: Result<usize, Failure>) -> (r: (Run, Demand))
        ensures
            r.0@ == at(self@, StageView::Finished),
            r.1@ == (DemandView::Stop { outcome }),
    {
        (self.staged(Stage::Finished), Demand::Stop { outcome })
    }

    /// Goes on after `text` was rejected with `error`.
    fn reject(self, text: String, error: EditError) -> (r: (Run, Demand))
        ensures
            (r.0@, r.1@) == rejected(self@, text@, error),
    {
        if self.args.oops {
            self.stop(Err(Failure::Rejected { error }))
        } else {
            (self.staged(Stage::Asking { text, error }), Demand::Ask { error })
        }
    }

    /// Hands out the operation at `next`, or ends the run.
    fn proceed(self, operations: Vec<Operation>, next: usize) -> (r: (Run, Demand))
        ensures
            (r.0@, r.1@) == proceeding(self@, views(operations@), next),
    {
        if next >= operations.len() {
            let done = if self.args.dry_run {
                0
            } else {
                operations.len()
            };
            return self.stop(Ok(done));
        }
        let operation = operations[next].clone();
        assert(views(operations@)[next as int] == operation@);
        match execute_operation(&operation, &self.args, &self.current_dir) {
            Err(error) => self.stop(Err(Failure::Unmovable { index: next, why: error })),
            Ok(steps) => (
                self.staged(Stage::Moving { operations, next }),
                Demand::Perform { operation, steps },
            ),
        }
    }

    /// The paths that the lines name.
    fn destinations(lines: &Vec<String>) -> (paths: Vec<FilePath>)
        ensures
            views(paths@) == destinations_of(views(lines@)),
    {
        let ghost wanted = destinations_of(views(lines@));
        let mut paths: Vec<FilePath> = Vec::new();
        let mut i: usize = 0;
        assert(views(paths@) =~= wanted.take(0));
        while i < lines.len()
            invariant
                i <= lines.len(),
                wanted == destinations_of(views(lines@)),
                views(paths@) == wanted.take(i as int),
            decreases lines.len() - i,
        {
            let path = Destination::from_line(lines[i].as_str()).path().clone();
            proof {
                lemma_views_push(paths@, path);
                assert(views(lines@)[i as int] == lines@[i as int]@);
                assert(wanted.take(i + 1) =~= wanted.take(i as int).push(path@));
            }
            paths.push(path);
            i += 1;
        }
        assert(wanted.take(i as int) =~= wanted);
        paths
    }

    /// The lines with what is known of the places they name.
    fn edits(lines: &Vec<String>, exists: &Vec<bool>) -> (edits: Vec<Edit>)
        requires
            exists.len() == lines.len(),
        ensures
            views(edits@) == edits_of(views(lines@), exists@),
    {
        let ghost wanted = edits_of(views(lines@), exists@);
        let mut edits: Vec<Edit> = Vec::new();
        let mut i: usize = 0;
        assert(views(edits@) =~= wanted.take(0));
        while i < lines.len()
            invariant
                i <= lines.len(),
                exists.len() == lines.len(),
                wanted == edits_of(views(lines@), exists@),
                views(edits@) == wanted.take(i as int),
            decreases lines.len() - i,
        {
            let edit = Edit { line: lines[i].clone(), exists: exists[i] };
            proof {
                lemma_views_push(edits@, edit);
                assert(views(lines@)[i as int] == lines@[i as int]@);
                assert(wanted.take(i + 1) =~= wanted.take(i as int).push(edit@));
            }
            edits.push(edit);
            i += 1;
        }
        assert(wanted.take(i as int) =~= wanted);
        edits
    }

    /// Takes what the caller reports and says what is to be done next.
    pub fn advance(self, event: Event) -> (r: (Run, Demand))
        ensures
            (r.0@, r.1@) == after(self@, event@),
    {
        let Run { sources, args, current_dir, stage } = self;
        let run = Run { sources, args, current_dir, stage: Stage::Finished };
        assert(at(run@, stage@) == self@);
        match (stage, event) {
            (Stage::Editing, Event::Edited { text }) => {
                let lines = read_lines(text.as_str());
                if lines.len() != run.sources.len() {
                    let error = EditError::LineCount {
                        lines: lines.len(),
                        sources: run.sources.len(),
                    };
                    return run.reject(text, error);
                }
                let paths = Self::destinations(&lines);
                (run.staged(Stage::Probing { text, lines }), Demand::Probe { paths })
            },
            (Stage::Probing { text, lines }, Event::Probed { exists }) => {
                if exists.len() != lines.len() {
                    return run.stop(Err(Failure::Unexpected));
                }
                let edits = Self::edits(&lines, &exists);
                match operations_from(&run.sources, &edits) {
                    Err(error) => run.reject(text, error),
                    Ok(operations) => run.proceed(operations, 0),
                }
            },
            (Stage::Asking { text, error }, Event::Answered { line }) => {
                match prompt_redo(line.as_str()) {
                    Some(true) => (run.staged(Stage::Editing), Demand::Edit { text }),
                    Some(false) => run.stop(Ok(0)),
                    None => (run.staged(Stage::Asking { text, error }), Demand::Ask { error }),
                }
            },
            (Stage::Moving { operations, next }, Event::Performed { ok }) => {
                if !ok {
                    run.stop(Err(Failure::Disk { index: next }))
                } else if next >= operations.len() {
                    run.proceed(operations, next)
                } else {
                    run.proceed(operations, next + 1)
                }
            },
            (_, _) => run.stop(Err(Failure::Unexpected)),
        }
    }
}

/// The run with another choice of dry run.
pub open spec fn with_dry_run(run: RunView, dry_run: bool) -> RunView {
    RunView {
        sources: run.sources,
        args: CommandLine { dry_run, ..run.args },
        current_dir: run.current_dir,
        stage: run.stage,
    }
}

/// The demand asks for no change on disk and reports no operation as
/// carried out.
pub open spec fn changes_nothing(demand: DemandView) -> bool {
    match demand {
        DemandView::Perform { operation, steps } => steps.len() == 0,
        DemandView::Stop { outcome: Ok(count) } => count == 0,
        _ => true,
    }
}

/// The demand tells of rejected lines: it asks the user, or it ends the
/// run with the rejection.
pub open spec fn tells_rejection(demand: DemandView) -> bool {
    match demand {
        DemandView::Ask { error } => true,
        DemandView::Stop { outcome: Err(Failure::Rejected { error }) } => true,
        _ => false,
    }
}

/// Edited text with another number of lines than there are sources is
/// rejected for that, whatever the lines say, and nothing is carried out
/// for it: the user is asked, or the run ends.
pub proof fn lemma_line_count_is_checked_first(run: RunView, text: Seq<char>)
    requires
        run.stage is Editing,
        lines_of(text).len() != run.sources.len(),
    ensures
        ({
            let error = EditError::LineCount {
                lines: lines_of(text).len() as usize,
                sources: run.sources.len() as usize,
            };
            let (then, demand) = after(run, EventView::Edited { text });
            if run.args.oops {
                then.stage is Finished && demand == (DemandView::Stop {
                    outcome: Err(Failure::Rejected { error }),
                })
            } else {
                then.stage == (StageView::Asking { text, error }) && demand == (DemandView::Ask {
                    error,
                })
            }
        }),
{
}

/// Lines of which one is rejected are carried out in no part: the user is
/// asked, or the run ends with the rejection.
pub proof fn lemma_rejected_lines_carry_out_nothing(run: RunView, exists: Seq<bool>)
    requires
        run.stage is Probing,
        exists.len() == run.stage->Probing_lines.len(),
        operations_of(run.sources, edits_of(run.stage->Probing_lines, exists)) is Err,
    ensures
        ({
            let error = operations_of(
                run.sources,
                edits_of(run.stage->Probing_lines, exists),
            )->Err_0;
            let (then, demand) = after(run, EventView::Probed { exists });
            if run.args.oops {
                then.stage is Finished && demand == (DemandView::Stop {
                    outcome: Err(Failure::Rejected { error }),
                })
            } else {
                then.stage == (StageView::Asking { text: run.stage->Probing_text, error })
                    && demand == (DemandView::Ask { error })
            }
        }),
{
}

/// In a dry run no demand asks for a change on disk, and the count that
/// the run ends with is zero.
pub proof fn lemma_dry_run_changes_nothing(run: RunView, event: EventView)
    requires
        run.args.dry_run,
    ensures
        after(run, event).0.args == run.args,
        changes_nothing(after(run, event).1),
{
}

/// A dry run rejects what a real run rejects, in the same way: up to the
/// point where the lines are accepted, the two go the same way.
pub proof fn lemma_dry_run_rejects_alike(run: RunView, event: EventView, dry_run: bool)
    requires
        !(run.stage is Moving),
    ensures
        tells_rejection(after(run, event).1) <==> tells_rejection(
            after(with_dry_run(run, dry_run), event).1,
        ),
        tells_rejection(after(run, event).1) ==> {
            &&& after(with_dry_run(run, dry_run), event).1 == after(run, event).1
            &&& after(with_dry_run(run, dry_run), event).0 == with_dry_run(
                after(run, event).0,
                dry_run,
            )
        },
{
}

/// Steps are handed out only for a batch in which every line was accepted,
/// one operation at a time and in the order of the lines.
pub proof fn lemma_steps_follow_acceptance(run: RunView, event: EventView)
    requires
        after(run, event).1 is Perform,
        run.stage matches StageView::Moving { operations, next } ==> operations.len()
            <= usize::MAX,
    ensures
        after(run, event).0.stage is Moving,
        ({
            let then = after(run, event).0.stage;
            let operation = after(run, event).1->Perform_operation;
            &&& 0 <= then->Moving_next < then->Moving_operations.len()
            &&& operation == then->Moving_operations[then->Moving_next as int]
            &&& match run.stage {
                StageView::Probing { text, lines } => event is Probed && then->Moving_next == 0
                    && operations_of(run.sources, edits_of(lines, event->Probed_exists)) == Ok::<
                    Seq<OperationView>,
                    EditError,
                >(then->Moving_operations),
                StageView::Moving { operations, next } => event == (EventView::Performed {
                    ok: true,
                }) && then->Moving_operations == operations && then->Moving_next == next + 1,
                _ => false,
            }
        }),
{
}

/// A run whose listing comes back from the editor as it went out carries
/// out nothing and ends with the count zero, whatever is on disk.
pub proof fn lemma_unedited_run_carries_out_nothing(
    sources: Seq<SourceView>,
    args: CommandLine,
    current_dir: Seq<Seq<char>>,
    exists: Seq<bool>,
)
    requires
        forall|i: int| 0 <= i < sources.len() ==> tidy(#[trigger] sources[i].text),
        exists.len() == sources.len(),
    ensures
        ({
            let (run, first) = begun(sources, args, current_dir);
            let (run, second) = after(run, EventView::Edited { text: first->Edit_text });
            let (run, third) = after(run, EventView::Probed { exists });
            &&& first is Edit
            &&& second is Probe
            &&& third == (DemandView::Stop { outcome: Ok(0) })
            &&& run.stage is Finished
        }),
{
    lemma_listing_reads_back(sources);
    let lines = lines_of(listing_of(sources));
    lemma_unedited_listing_gives_nothing(sources, edits_of(lines, exists));
}

/// A failure on disk ends the run at once: the operations behind the failed
/// one are never handed out, and what was done before stays done.
pub proof fn lemma_failure_on_disk_halts(run: RunView, later: EventView)
    requires
        run.stage is Moving,
    ensures
        ({
            let (halted, demand) = after(run, EventView::Performed { ok: false });
            &&& halted.stage is Finished
            &&& demand == (DemandView::Stop {
                outcome: Err(Failure::Disk { index: run.stage->Moving_next }),
            })
            &&& after(halted, later).0.stage is Finished
            &&& after(halted, later).1 == (DemandView::Stop { outcome: Err(Failure::Unexpected) })
        }),
{
}

} // verus!
