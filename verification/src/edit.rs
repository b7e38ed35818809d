//! The listing that is handed to the editor, the lines that come back, and
//! the operations that the changed lines stand for.

use crate::model::{
    destination_of, Destination, EntryKind, Operation, OperationKind, OperationView, Source,
    SourceView,
};
use crate::path::within;
use crate::text::{
    chars_of, is_separator, is_space, lemma_split_append, lemma_split_push,
    lemma_trim_end_is_take, lemma_trimmed_is_itself, lemma_views_push, split, split_ranges,
    string_of, trim_range, trim_separators_end, trimmed, views, without_trailing_separators,
};
use crate::validate::{conflict, ends_with_separator, is_operational, nested, ConflictKind};
use vstd::prelude::*;

verus! {

/// Why the edited lines give no batch.
#[derive(Clone, Copy, Debug, PartialEq, Eq, Structural)]
pub enum EditError {
    /// There are `lines` lines for `sources` sources.
    LineCount { lines: usize, sources: usize },
    /// The line at `index` breaks the rule `kind` against the operations of
    /// the lines before it.
    Conflict { index: usize, kind: ConflictKind },
}

/// One line as it came back from the editor, with what is known of the
/// place it names.
#[derive(Debug, PartialEq)]
pub struct Edit {
    /// The line, trimmed.
    pub line: String,
    /// Whether the destination that the line names is on disk now.
    pub exists: bool,
}

/// The plain value of an [`Edit`].
pub struct EditView {
    pub line: Seq<char>,
    pub exists: bool,
}

impl View for Edit {
    type V = EditView;

    open spec fn view(&self) -> EditView {
        EditView { line: self.line@, exists: self.exists }
    }
}

/// The line that stands for a source: its text, with a separator behind it
/// where the source is a directory and the text does not end in one.
pub open spec fn listed(source: SourceView) -> Seq<char> {
    if source.meta == EntryKind::Directory && !ends_with_separator(source.text) {
        source.text.push('/')
    } else {
        source.text
    }
}

/// The listing: one line for each source, in order, with a line feed
/// between two lines.
pub open spec fn listing_of(sources: Seq<SourceView>) -> Seq<char>
    decreases sources.len(),
{
    if sources.len() == 0 {
        Seq::empty()
    } else if sources.len() == 1 {
        listed(sources[0])
    } else {
        listing_of(sources.drop_last()).push('\n') + listed(sources.last())
    }
}

/// What is left of the pieces of an edited text: blank pieces are dropped,
/// the others lose surrounding white space and then trailing separators.
pub open spec fn cleaned(pieces: Seq<Seq<char>>) -> Seq<Seq<char>>
    decreases pieces.len(),
{
    if pieces.len() == 0 {
        Seq::empty()
    } else if trimmed(pieces.last()).len() == 0 {
        cleaned(pieces.drop_last())
    } else {
        cleaned(pieces.drop_last()).push(without_trailing_separators(trimmed(pieces.last())))
    }
}

/// The lines of an edited text.
pub open spec fn lines_of(text: Seq<char>) -> Seq<Seq<char>> {
    cleaned(split(text, '\n'))
}

/// The line leaves the source where it is: it is the source's own text, or
/// it names the source's path or its absolute path.
pub open spec fn unchanged(source: SourceView, line: Seq<char>) -> bool {
    ||| line == source.text
    ||| destination_of(line).path == source.path
    ||| destination_of(line).path == source.abs
}

/// The operation that a changed line asks for.
pub open spec fn candidate(source: SourceView, line: Seq<char>) -> OperationView {
    OperationView { kind: OperationKind::Move, src: source, dst: destination_of(line) }
}

/// The batch after the first `n` lines: each changed line, in order, is
/// held against the operations accepted before it, and the first one that
/// breaks a rule ends the batch.
pub open spec fn built(sources: Seq<SourceView>, edits: Seq<EditView>, n: nat) -> Result<
    Seq<OperationView>,
    EditError,
>
    decreases n,
{
    if n == 0 {
        Ok(Seq::empty())
    } else {
        let i = (n - 1) as nat;
        match built(sources, edits, i) {
            Err(e) => Err(e),
            Ok(accepted) => if unchanged(sources[i as int], edits[i as int].line) {
                Ok(accepted)
            } else {
                let next = candidate(sources[i as int], edits[i as int].line);
                match conflict(accepted, next, edits[i as int].exists) {
                    Some(kind) => Err(EditError::Conflict { index: i as usize, kind }),
                    None => Ok(accepted.push(next)),
                }
            },
        }
    }
}

/// The batch that the edited lines stand for: line `i` belongs to source
/// `i`, so there must be as many lines as sources.
pub open spec fn operations_of(sources: Seq<SourceView>, edits: Seq<EditView>) -> Result<
    Seq<OperationView>,
    EditError,
> {
    if edits.len() != sources.len() {
        Err(EditError::LineCount { lines: edits.len() as usize, sources: sources.len() as usize })
    } else {
        built(sources, edits, sources.len())
    }
}

/// Once a line is rejected, the batch stays rejected.
pub proof fn lemma_rejection_stays(sources: Seq<SourceView>, edits: Seq<EditView>, n: nat, m: nat)
    requires
        n <= m,
        built(sources, edits, n) is Err,
    ensures
        built(sources, edits, m) == built(sources, edits, n),
    decreases m,
{
    if n < m {
        lemma_rejection_stays(sources, edits, n, (m - 1) as nat);
    }
}

/// The listing of the sources, to be edited.
pub fn listing(sources: &Vec<Source>) -> (text: String)
    ensures
        text@ == listing_of(views(sources@)),
{
    let ghost all = views(sources@);
    let mut text = String::new();
    let mut i: usize = 0;
    assert(all.take(0) =~= Seq::<SourceView>::empty());
    while i < sources.len()
        invariant
            i <= sources.len(),
            all == views(sources@),
            text@ == listing_of(all.take(i as int)),
        decreases sources.len() - i,
    {
        let source = &sources[i];
        proof {
            assert(all.take(i + 1).drop_last() =~= all.take(i as int));
            assert(all.take(i + 1).last() == source@);
            if i == 0 {
                assert(all.take(1)[0] == source@);
            }
        }
        if i > 0 {
            text.push('\n');
        }
        let ghost before = text@;
        let line = chars_of(source.text.as_str());
        let mut j: usize = 0;
        while j < line.len()
            invariant
                j <= line.len(),
                text@ == before + line@.take(j as int),
            decreases line.len() - j,
        {
            text.push(line[j]);
            j += 1;
            assert(line@.take(j as int) =~= line@.take(j - 1).push(line@[j - 1]));
            assert(text@ =~= before + line@.take(j as int));
        }
        assert(line@.take(j as int) =~= line@);
        if source.meta == EntryKind::Directory && !(line.len() > 0 && line[line.len() - 1]
            == '/') {
            text.push('/');
        }
        assert(text@ =~= before + listed(source@));
        i += 1;
    }
    assert(all.take(i as int) =~= all);
    text
}

/// The lines of an edited text: the text is cut at line feeds, blank lines
/// are dropped, and each line loses surrounding white space and then
/// trailing separators.
pub fn read_lines(text: &str) -> (lines: Vec<String>)
    ensures
        views(lines@) == lines_of(text@),
{
    let v = chars_of(text);
    let ranges = split_ranges(&v, '\n');
    let ghost pieces = split(v@, '\n');
    let mut lines: Vec<String> = Vec::new();
    let mut k: usize = 0;
    assert(pieces.take(0) =~= Seq::<Seq<char>>::empty());
    assert(views(lines@) =~= Seq::<Seq<char>>::empty());
    while k < ranges.len()
        invariant
            k <= ranges.len(),
            pieces == split(v@, '\n'),
            ranges@.len() == pieces.len(),
            forall|j: int|
                0 <= j < ranges@.len() ==> {
                    &&& (#[trigger] ranges@[j]).0 <= ranges@[j].1 <= v@.len()
                    &&& pieces[j] == v@.subrange(ranges@[j].0 as int, ranges@[j].1 as int)
                },
            views(lines@) == cleaned(pieces.take(k as int)),
        decreases ranges.len() - k,
    {
        let (from, to) = ranges[k];
        proof {
            assert(pieces.take(k + 1).drop_last() =~= pieces.take(k as int));
            assert(pieces.take(k + 1).last() == pieces[k as int]);
        }
        let (a, b) = trim_range(&v, from, to);
        if a < b {
            let end = trim_separators_end(&v, a, b);
            let line = string_of(&v, a, end);
            proof {
                lemma_views_push(lines@, line);
            }
            lines.push(line);
        }
        k += 1;
    }
    assert(pieces.take(k as int) =~= pieces);
    lines
}

/// The batch that the edited lines stand for. Line `i` belongs to source
/// `i`. A line that leaves its source where it is asks for nothing; every
/// other line asks for one operation, which must pass [`is_operational`]
/// against the operations of the lines before it.
pub fn operations_from(sources: &Vec<Source>, edits: &Vec<Edit>) -> (r: Result<
    Vec<Operation>,
    EditError,
>)
    ensures
        match r {
            Ok(operations) => operations_of(views(sources@), views(edits@)) == Ok::<
                Seq<OperationView>,
                EditError,
            >(views(operations@)),
            Err(e) => operations_of(views(sources@), views(edits@)) == Err::<
                Seq<OperationView>,
                EditError,
            >(e),
        },
{
    let ghost sv = views(sources@);
    let ghost ev = views(edits@);
    if edits.len() != sources.len() {
        return Err(EditError::LineCount { lines: edits.len(), sources: sources.len() });
    }
    let mut operations: Vec<Operation> = Vec::new();
    let mut i: usize = 0;
    assert(views(operations@) =~= Seq::<OperationView>::empty());
    while i < sources.len()
        invariant
            i <= sources.len(),
            edits.len() == sources.len(),
            sv == views(sources@),
            ev == views(edits@),
            built(sv, ev, i as nat) == Ok::<Seq<OperationView>, EditError>(views(operations@)),
        decreases sources.len() - i,
    {
        let source = &sources[i];
        let edit = &edits[i];
        assert(sv[i as int] == source@);
        assert(ev[i as int] == edit@);
        let dst = Destination::from_line(edit.line.as_str());
        if !(edit.line == source.text || dst.path().same_as(&source.path) || dst.path().same_as(
            &source.abs,
        )) {
            let next = Operation { kind: OperationKind::Move, src: source.clone(), dst };
            assert(next@ == candidate(source@, edit.line@));
            match is_operational(operations.as_slice(), &next, edit.exists) {
                Err(kind) => {
                    proof {
                        lemma_rejection_stays(sv, ev, (i + 1) as nat, sources.len() as nat);
                    }
                    return Err(EditError::Conflict { index: i, kind });
                },
                Ok(()) => {
                    proof {
                        lemma_views_push(operations@, next);
                    }
                    operations.push(next);
                },
            }
        }
        i += 1;
    }
    Ok(operations)
}

/// The letter in lower case, where it is one of the capitals `A` to `Z`.
pub open spec fn lowered(c: char) -> char {
    if 'A' <= c <= 'Z' {
        ((c as u32) + 32) as char
    } else {
        c
    }
}

/// What the user's answer says: the line without surrounding white space,
/// in lower case.
pub open spec fn answer_of(line: Seq<char>) -> Seq<char> {
    Seq::new(trimmed(line).len(), |i: int| lowered(trimmed(line)[i]))
}

/// Whether the answer asks to edit again. `a` and `abort` say no; `e`,
/// `edit` and the empty answer say yes; anything else is no answer.
pub open spec fn redo_of(line: Seq<char>) -> Option<bool> {
    let answer = answer_of(line);
    if answer == seq!['a'] || answer == seq!['a', 'b', 'o', 'r', 't'] {
        Some(false)
    } else if answer.len() == 0 || answer == seq!['e'] || answer == seq!['e', 'd', 'i', 't'] {
        Some(true)
    } else {
        None
    }
}

/// The letter in lower case.
pub fn lower(c: char) -> (r: char)
    ensures
        r == lowered(c),
{
    match c {
        'A' => 'a',
        'B' => 'b',
        'C' => 'c',
        'D' => 'd',
        'E' => 'e',
        'F' => 'f',
        'G' => 'g',
        'H' => 'h',
        'I' => 'i',
        'J' => 'j',
        'K' => 'k',
        'L' => 'l',
        'M' => 'm',
        'N' => 'n',
        'O' => 'o',
        'P' => 'p',
        'Q' => 'q',
        'R' => 'r',
        'S' => 's',
        'T' => 't',
        'U' => 'u',
        'V' => 'v',
        'W' => 'w',
        'X' => 'x',
        'Y' => 'y',
        'Z' => 'z',
        _ => c,
    }
}

/// Reads the user's answer to the question whether to edit again: `Some`
/// of the decision, or `None` where the line is no answer and the question
/// is to be put again.
pub fn prompt_redo(answer: &str) -> (r: Option<bool>)
    ensures
        r == redo_of(answer@),
{
    let v = chars_of(answer);
    let (a, b) = trim_range(&v, 0, v.len());
    assert(v@.subrange(0, v@.len() as int) =~= v@);
    let mut word: Vec<char> = Vec::new();
    let mut i: usize = a;
    while i < b
        invariant
            a <= i <= b <= v.len(),
            word@.len() == i - a,
            forall|k: int| 0 <= k < i - a ==> word@[k] == lowered(v@[a + k]),
        decreases b - i,
    {
        word.push(lower(v[i]));
        i += 1;
    }
    assert(word@ =~= answer_of(answer@));
    let n = word.len();
    let abort = (n == 1 && word[0] == 'a') || (n == 5 && word[0] == 'a' && word[1] == 'b'
        && word[2] == 'o' && word[3] == 'r' && word[4] == 't');
    let edit = n == 0 || (n == 1 && word[0] == 'e') || (n == 4 && word[0] == 'e' && word[1]
        == 'd' && word[2] == 'i' && word[3] == 't');
    proof {
        if abort {
            assert(word@ =~= seq!['a'] || word@ =~= seq!['a', 'b', 'o', 'r', 't']);
        }
        if !abort && edit && n > 0 {
            assert(word@ =~= seq!['e'] || word@ =~= seq!['e', 'd', 'i', 't']);
        }
    }
    if abort {
        Some(false)
    } else if edit {
        Some(true)
    } else {
        None
    }
}

/// A line that repeats its source's own text asks for nothing: the batch
/// after it is the batch before it.
pub proof fn lemma_own_text_asks_nothing(sources: Seq<SourceView>, edits: Seq<EditView>, i: nat)
    requires
        i < sources.len(),
        i < edits.len(),
        edits[i as int].line == sources[i as int].text,
    ensures
        built(sources, edits, i + 1) == built(sources, edits, i),
{
}

/// A listing that comes back with every line as it went out gives the
/// empty batch.
pub proof fn lemma_untouched_listing_gives_nothing(
    sources: Seq<SourceView>,
    edits: Seq<EditView>,
    n: nat,
)
    requires
        n <= sources.len(),
        n <= edits.len(),
        forall|i: int| 0 <= i < n ==> (#[trigger] edits[i]).line == sources[i].text,
    ensures
        built(sources, edits, n) == Ok::<Seq<OperationView>, EditError>(Seq::empty()),
    decreases n,
{
    if n > 0 {
        lemma_untouched_listing_gives_nothing(sources, edits, (n - 1) as nat);
    }
}

/// Whether a line is accepted depends on the lines before it and on
/// nothing behind it: two lists of lines that agree in their first `n`
/// lines give the same batch after `n` lines.
pub proof fn lemma_batch_looks_back_only(
    sources: Seq<SourceView>,
    edits: Seq<EditView>,
    others: Seq<EditView>,
    n: nat,
)
    requires
        n <= edits.len(),
        n <= others.len(),
        forall|i: int| 0 <= i < n ==> edits[i] == others[i],
    ensures
        built(sources, edits, n) == built(sources, others, n),
    decreases n,
{
    if n > 0 {
        lemma_batch_looks_back_only(sources, edits, others, (n - 1) as nat);
    }
}

/// A batch holds at most one operation for each line read. Each of its
/// operations is the one that some changed line asked for, and the place
/// that this line names was not on disk.
pub proof fn lemma_batch_comes_from_lines(sources: Seq<SourceView>, edits: Seq<EditView>, n: nat)
    requires
        built(sources, edits, n) is Ok,
    ensures
        built(sources, edits, n)->Ok_0.len() <= n,
        forall|k: int|
            0 <= k < built(sources, edits, n)->Ok_0.len() ==> exists|i: int|
                0 <= i < n && !unchanged(sources[i], edits[i].line) && !edits[i].exists && (
                #[trigger] built(sources, edits, n)->Ok_0[k]) == candidate(
                    sources[i],
                    edits[i].line,
                ),
    decreases n,
{
    if n > 0 {
        let i = (n - 1) as nat;
        lemma_batch_comes_from_lines(sources, edits, i);
        let before = built(sources, edits, i)->Ok_0;
        let after = built(sources, edits, n)->Ok_0;
        assert forall|k: int| 0 <= k < after.len() implies exists|j: int|
            0 <= j < n && !unchanged(sources[j], edits[j].line) && !edits[j].exists && (
            #[trigger] after[k]) == candidate(sources[j], edits[j].line) by {
            if k < before.len() {
                assert(after[k] == before[k]);
                let j = choose|j: int|
                    0 <= j < i && !unchanged(sources[j], edits[j].line) && !edits[j].exists
                        && before[k] == candidate(sources[j], edits[j].line);
                assert(0 <= j < n && !unchanged(sources[j], edits[j].line) && !edits[j].exists
                    && after[k] == candidate(sources[j], edits[j].line));
            } else {
                assert(after[k] == candidate(sources[i as int], edits[i as int].line));
                assert(!edits[i as int].exists);
            }
        }
    }
}

/// In an accepted batch no destination is another one, lies below another
/// one, or lies above another one.
pub proof fn lemma_destinations_stand_apart(sources: Seq<SourceView>, edits: Seq<EditView>, n: nat)
    requires
        built(sources, edits, n) is Ok,
    ensures
        forall|a: int, b: int|
            #![trigger built(sources, edits, n)->Ok_0[a], built(sources, edits, n)->Ok_0[b]]
            0 <= a < b < built(sources, edits, n)->Ok_0.len() ==> {
                &&& !within(
                    built(sources, edits, n)->Ok_0[a].dst.path,
                    built(sources, edits, n)->Ok_0[b].dst.path,
                )
                &&& !within(
                    built(sources, edits, n)->Ok_0[b].dst.path,
                    built(sources, edits, n)->Ok_0[a].dst.path,
                )
            },
    decreases n,
{
    if n > 0 {
        let i = (n - 1) as nat;
        lemma_destinations_stand_apart(sources, edits, i);
        let before = built(sources, edits, i)->Ok_0;
        let after = built(sources, edits, n)->Ok_0;
        if !unchanged(sources[i as int], edits[i as int].line) {
            let next = candidate(sources[i as int], edits[i as int].line);
            assert(conflict(before, next, edits[i as int].exists) is None);
            assert forall|a: int, b: int| 0 <= a < b < after.len() implies {
                &&& !within(#[trigger] after[a].dst.path, #[trigger] after[b].dst.path)
                &&& !within(after[b].dst.path, after[a].dst.path)
            } by {
                if b < before.len() {
                    assert(after[a] == before[a] && after[b] == before[b]);
                } else {
                    assert(after[b] == next);
                    assert(after[a] == before[a]);
                    assert(!nested(before[a], next));
                }
            }
        }
    }
}

/// No operation of an accepted batch sends its source to itself or to a
/// place below itself.
pub proof fn lemma_destinations_stay_out_of_sources(
    sources: Seq<SourceView>,
    edits: Seq<EditView>,
    n: nat,
)
    requires
        built(sources, edits, n) is Ok,
    ensures
        forall|k: int|
            0 <= k < built(sources, edits, n)->Ok_0.len() ==> !within(
                (#[trigger] built(sources, edits, n)->Ok_0[k]).dst.path,
                built(sources, edits, n)->Ok_0[k].src.path,
            ),
    decreases n,
{
    if n > 0 {
        let i = (n - 1) as nat;
        lemma_destinations_stay_out_of_sources(sources, edits, i);
        let before = built(sources, edits, i)->Ok_0;
        let after = built(sources, edits, n)->Ok_0;
        assert forall|k: int| 0 <= k < after.len() implies !within(
            (#[trigger] after[k]).dst.path,
            after[k].src.path,
        ) by {
            if k < before.len() {
                assert(after[k] == before[k]);
            }
        }
    }
}

/// No operation of an accepted batch goes to a place that was on disk when
/// its line was read, whatever the other lines ask for.
pub proof fn lemma_existing_destination_is_rejected(
    sources: Seq<SourceView>,
    edits: Seq<EditView>,
    i: nat,
    n: nat,
)
    requires
        i < n,
        edits[i as int].exists,
        !unchanged(sources[i as int], edits[i as int].line),
    ensures
        built(sources, edits, n) is Err,
        built(sources, edits, i) is Ok && conflict(
            built(sources, edits, i)->Ok_0,
            candidate(sources[i as int], edits[i as int].line),
            false,
        ) is None ==> built(sources, edits, n) == Err::<Seq<OperationView>, EditError>(
            EditError::Conflict { index: i as usize, kind: ConflictKind::DestinationExists },
        ),
{
    lemma_rejection_stays(sources, edits, i + 1, n);
}

/// A text that comes back from a listing as it went in: it is not empty, has
/// no line feed in it, no white space at either end and no separator at its
/// end.
pub open spec fn tidy(text: Seq<char>) -> bool {
    &&& text.len() > 0
    &&& !text.contains('\n')
    &&& !is_space(text[0])
    &&& !is_space(text.last())
    &&& !is_separator(text.last())
}

/// The texts of the sources.
pub open spec fn texts_of(sources: Seq<SourceView>) -> Seq<Seq<char>> {
    Seq::new(sources.len(), |i: int| sources[i].text)
}

/// The lines that stand for the sources.
pub open spec fn listed_lines(sources: Seq<SourceView>) -> Seq<Seq<char>> {
    Seq::new(sources.len(), |i: int| listed(sources[i]))
}

/// The pieces of a listing are the lines that stand for its sources.
pub proof fn lemma_listing_splits(sources: Seq<SourceView>)
    requires
        sources.len() > 0,
        forall|i: int| 0 <= i < sources.len() ==> tidy(#[trigger] sources[i].text),
    ensures
        split(listing_of(sources), '\n') == listed_lines(sources),
    decreases sources.len(),
{
    let line = listed(sources.last());
    assert(tidy(sources[sources.len() - 1].text));
    assert forall|i: int| 0 <= i < line.len() implies line[i] != '\n' by {
        if i < sources.last().text.len() {
            assert(line[i] == sources.last().text[i]);
        }
    }
    if sources.len() == 1 {
        let none = Seq::<char>::empty();
        lemma_split_append(none, line, '\n');
        assert(none + line =~= line);
        assert(split(none, '\n') =~= seq![none]);
        assert(split(line, '\n') =~= listed_lines(sources));
    } else {
        let before = sources.drop_last();
        assert forall|i: int| 0 <= i < before.len() implies tidy(#[trigger] before[i].text) by {
            assert(before[i] == sources[i]);
        }
        lemma_listing_splits(before);
        let text = listing_of(before);
        lemma_split_push(text, '\n', '\n');
        lemma_split_append(text.push('\n'), line, '\n');
        assert(split(listing_of(sources), '\n') =~= listed_lines(sources)) by {
            let pieces = split(text, '\n').push(Seq::<char>::empty());
            assert(pieces.drop_last() =~= split(text, '\n'));
            assert(Seq::<char>::empty() + line =~= line);
        }
    }
}

/// Cleaning the lines that stand for tidy sources gives the sources' texts.
pub proof fn lemma_listed_lines_clean(sources: Seq<SourceView>)
    requires
        forall|i: int| 0 <= i < sources.len() ==> tidy(#[trigger] sources[i].text),
    ensures
        cleaned(listed_lines(sources)) == texts_of(sources),
    decreases sources.len(),
{
    if sources.len() == 0 {
        assert(cleaned(listed_lines(sources)) =~= texts_of(sources));
    } else {
        let before = sources.drop_last();
        assert forall|i: int| 0 <= i < before.len() implies tidy(#[trigger] before[i].text) by {
            assert(before[i] == sources[i]);
        }
        lemma_listed_lines_clean(before);
        assert(listed_lines(sources).drop_last() =~= listed_lines(before));
        let text = sources.last().text;
        let line = listed(sources.last());
        assert(tidy(sources[sources.len() - 1].text));
        assert(listed_lines(sources).last() == line);
        lemma_trimmed_is_itself(line);
        let sep = |c: char| is_separator(c);
        assert forall|i: int| text.len() <= i < line.len() implies sep(#[trigger] line[i]) by {
            assert(line[i] == '/');
        }
        assert(line[text.len() - 1] == text.last());
        lemma_trim_end_is_take(line, sep, text.len() as int);
        assert(line.take(text.len() as int) =~= text);
        assert(without_trailing_separators(line) == text);
        assert(texts_of(sources) =~= texts_of(before).push(text));
    }
}

/// A listing of tidy sources reads back as the sources' own texts, line for
/// line.
pub proof fn lemma_listing_reads_back(sources: Seq<SourceView>)
    requires
        forall|i: int| 0 <= i < sources.len() ==> tidy(#[trigger] sources[i].text),
    ensures
        lines_of(listing_of(sources)) == texts_of(sources),
{
    lemma_listed_lines_clean(sources);
    if sources.len() == 0 {
        assert(split(Seq::<char>::empty(), '\n') =~= seq![Seq::<char>::empty()]);
        let pieces = split(Seq::<char>::empty(), '\n');
        assert(pieces.last() =~= Seq::<char>::empty());
        assert(cleaned(pieces.drop_last()) =~= Seq::<Seq<char>>::empty());
        assert(trimmed(Seq::<char>::empty()).len() == 0);
        assert(cleaned(pieces) == cleaned(pieces.drop_last()));
        assert(cleaned(pieces) =~= texts_of(sources));
    } else {
        lemma_listing_splits(sources);
    }
}

/// A listing that comes back unedited gives the empty batch, whatever is on
/// disk.
pub proof fn lemma_unedited_listing_gives_nothing(sources: Seq<SourceView>, edits: Seq<EditView>)
    requires
        forall|i: int| 0 <= i < sources.len() ==> tidy(#[trigger] sources[i].text),
        edits.len() == lines_of(listing_of(sources)).len(),
        forall|i: int|
            0 <= i < edits.len() ==> (#[trigger] edits[i]).line == lines_of(
                listing_of(sources),
            )[i],
    ensures
        operations_of(sources, edits) == Ok::<Seq<OperationView>, EditError>(Seq::empty()),
{
    lemma_listing_reads_back(sources);
    lemma_untouched_listing_gives_nothing(sources, edits, sources.len());
}

/// With another number of lines than sources there is no batch, whatever
/// the lines say.
pub proof fn lemma_line_count_must_match(sources: Seq<SourceView>, edits: Seq<EditView>)
    requires
        edits.len() != sources.len(),
    ensures
        operations_of(sources, edits) == Err::<Seq<OperationView>, EditError>(
            EditError::LineCount {
                lines: edits.len() as usize,
                sources: sources.len() as usize,
            },
        ),
{
}

} // verus!
