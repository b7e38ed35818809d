//! Collecting the sources: which of the entries that were found are offered
//! for renaming, under which text, and in which order.

use crate::model::{CommandLine, EntryKind, Source, SourceView};
use crate::dictionary::{lemma_path_order_is_one_way, lemma_path_order_keeps_on};
use crate::natural::{comes_naturally_before, naturally_before};
use crate::order::{
    arrange, is_strict_order, lemma_arranged_is_sorted, lemma_arranged_items,
    lemma_arranged_keeps_apart, rank_of, ranked, Ranked,
};
use crate::path::{
    collapse, components, has_parent, name_of, normalize, path_before, rendered, FilePath,
};
use crate::pattern::{is_match, pattern_matches};
use crate::text::{
    chars_of, lemma_views_push, string_of, trim_separators_end, views,
    without_trailing_separators,
};
use vstd::prelude::*;

verus! {

/// Why the entries that were found give no list of sources.
#[derive(Debug, PartialEq)]
pub enum InputError {
    /// The pattern matched nothing.
    NoMatch { pattern: String },
    /// Nothing could be read at the path.
    Unreadable { path: String },
    /// The entry is the root directory, which has no parent to move in.
    RootSource { path: String },
    /// The entry's absolute path does not end in a name.
    Unnamed { abs: String },
    /// The entry with this absolute path was collected before.
    DuplicateSource { abs: String },
    /// No entry of the directory was taken.
    EmptyDirectory { path: String },
}

/// The plain value of an [`InputError`].
pub enum InputErrorView {
    NoMatch { pattern: Seq<char> },
    Unreadable { path: Seq<char> },
    RootSource { path: Seq<char> },
    Unnamed { abs: Seq<char> },
    DuplicateSource { abs: Seq<char> },
    EmptyDirectory { path: Seq<char> },
}

impl View for InputError {
    type V = InputErrorView;

    open spec fn view(&self) -> InputErrorView {
        match self {
            InputError::NoMatch { pattern } => InputErrorView::NoMatch { pattern: pattern@ },
            InputError::Unreadable { path } => InputErrorView::Unreadable { path: path@ },
            InputError::RootSource { path } => InputErrorView::RootSource { path: path@ },
            InputError::Unnamed { abs } => InputErrorView::Unnamed { abs: abs@ },
            InputError::DuplicateSource { abs } => InputErrorView::DuplicateSource { abs: abs@ },
            InputError::EmptyDirectory { path } => InputErrorView::EmptyDirectory { path: path@ },
        }
    }
}

/// One entry as it was found on disk.
#[derive(Debug)]
pub struct Entry {
    /// The path by which it was found.
    pub path: String,
    /// Its canonical absolute path.
    pub abs: String,
    /// What `path` names, a symlink not followed.
    pub meta: EntryKind,
    /// What `abs` names.
    pub abs_meta: EntryKind,
}

/// The plain value of an [`Entry`].
pub struct EntryView {
    pub path: Seq<char>,
    pub abs: Seq<char>,
    pub meta: EntryKind,
    pub abs_meta: EntryKind,
}

impl View for Entry {
    type V = EntryView;

    open spec fn view(&self) -> EntryView {
        EntryView { path: self.path@, abs: self.abs@, meta: self.meta, abs_meta: self.abs_meta }
    }
}

impl Clone for Entry {
    fn clone(&self) -> (r: Self)
        ensures
            r@ == self@,
    {
        Entry {
            path: self.path.clone(),
            abs: self.abs.clone(),
            meta: self.meta,
            abs_meta: self.abs_meta,
        }
    }
}

/// Entries are put in the natural order of their paths.
impl Ranked for Entry {
    open spec fn before(a: EntryView, b: EntryView) -> bool {
        naturally_before(a.path, b.path)
    }

    fn comes_before(&self, other: &Self) -> (r: bool) {
        comes_naturally_before(self.path.as_str(), other.path.as_str())
    }
}

/// Sources are put in the natural order of their texts.
impl Ranked for Source {
    open spec fn before(a: SourceView, b: SourceView) -> bool {
        naturally_before(a.text, b.text)
    }

    fn comes_before(&self, other: &Self) -> (r: bool) {
        comes_naturally_before(self.text.as_str(), other.text.as_str())
    }
}

/// What was found on disk at one of the listed paths, with the entries of
/// the directory where the path names one that is to be opened.
#[derive(Debug)]
pub struct Found {
    /// The entry at the path. `path` is the listed path as it stands;
    /// `meta` is that of the path without trailing separators. `abs` and
    /// `abs_meta` are looked at only where the entry is offered itself.
    pub entry: Entry,
    /// The entries directly in it; read only where [`opens`] says so.
    pub children: Vec<Entry>,
}

/// The plain value of a [`Found`].
pub struct FoundView {
    pub entry: EntryView,
    pub children: Seq<EntryView>,
}

impl View for Found {
    type V = FoundView;

    open spec fn view(&self) -> FoundView {
        FoundView { entry: self.entry@, children: views(self.children@) }
    }
}

/// Whether an entry is hidden: its name starts with a dot. There is no
/// answer for a path that does not end in a name.
pub open spec fn hidden(abs: Seq<Seq<char>>) -> Option<bool> {
    match name_of(abs) {
        Some(name) => Some(name.len() > 0 && name[0] == '.'),
        None => None,
    }
}

/// The path under which an entry is shown and kept.
pub open spec fn shown_path(entry: EntryView, args: CommandLine) -> Seq<char> {
    if args.absolute {
        entry.abs
    } else {
        entry.path
    }
}

/// The source that an entry becomes.
pub open spec fn source_of(entry: EntryView, args: CommandLine) -> SourceView {
    SourceView {
        text: without_trailing_separators(shown_path(entry, args)),
        path: components(shown_path(entry, args)),
        abs: components(entry.abs),
        meta: if args.absolute {
            entry.abs_meta
        } else {
            entry.meta
        },
    }
}

/// The pattern to leave out is given and matches the text.
pub open spec fn excluded(text: Seq<char>, args: CommandLine) -> bool {
    match args.exclude_pattern {
        Some(pattern) => pattern_matches(pattern, text),
        None => false,
    }
}

/// A source with this absolute path is in the list.
pub open spec fn holds(sources: Seq<SourceView>, abs: Seq<Seq<char>>) -> bool {
    exists|i: int| 0 <= i < sources.len() && (#[trigger] sources[i]).abs == abs
}

/// The list after one entry is offered to it. The root is refused. A
/// hidden entry is passed over unless hidden ones are asked for, and so is
/// one whose text the pattern to leave out matches. An entry that is in the
/// list already, by its absolute path, is refused. Any other entry joins
/// the list at its end.
pub open spec fn put(sources: Seq<SourceView>, entry: EntryView, args: CommandLine) -> Result<
    Seq<SourceView>,
    InputErrorView,
> {
    let abs = components(entry.abs);
    let source = source_of(entry, args);
    if !has_parent(abs) {
        Err(InputErrorView::RootSource { path: entry.path })
    } else if !args.with_hidden && hidden(abs) is None {
        Err(InputErrorView::Unnamed { abs: entry.abs })
    } else if !args.with_hidden && hidden(abs) == Some(true) {
        Ok(sources)
    } else if excluded(source.text, args) {
        Ok(sources)
    } else if holds(sources, abs) {
        Err(InputErrorView::DuplicateSource { abs: entry.abs })
    } else {
        Ok(sources.push(source))
    }
}

/// The list after the first `n` of the entries are offered to it in order;
/// the first refusal ends it.
pub open spec fn put_all(
    sources: Seq<SourceView>,
    entries: Seq<EntryView>,
    args: CommandLine,
    n: nat,
) -> Result<Seq<SourceView>, InputErrorView>
    decreases n,
{
    if n == 0 {
        Ok(sources)
    } else {
        match put_all(sources, entries, args, (n - 1) as nat) {
            Err(e) => Err(e),
            Ok(so_far) => put(so_far, entries[n - 1], args),
        }
    }
}

/// The entry is to be opened: its own entries are offered in its place. That
/// is so for everything but a file and a symlink, unless directories
/// themselves are asked for.
pub open spec fn opens(meta: EntryKind, args: CommandLine) -> bool {
    !(meta == EntryKind::File || meta == EntryKind::Symlink || args.directory)
}

/// The entry of a found path, its path without trailing separators.
pub open spec fn own_entry(found: FoundView) -> EntryView {
    EntryView {
        path: without_trailing_separators(found.entry.path),
        abs: found.entry.abs,
        meta: found.entry.meta,
        abs_meta: found.entry.abs_meta,
    }
}

/// The list after one found path is taken: the path itself is offered, or,
/// where it is to be opened, its entries in the natural order of their
/// paths, of which at least one must join the list.
pub open spec fn take_found(
    sources: Seq<SourceView>,
    found: FoundView,
    args: CommandLine,
) -> Result<Seq<SourceView>, InputErrorView> {
    if !opens(found.entry.meta, args) {
        put(sources, own_entry(found), args)
    } else {
        let children = ranked::<Entry>(found.children);
        match put_all(sources, children, args, children.len()) {
            Err(e) => Err(e),
            Ok(more) => if more.len() == sources.len() {
                Err(InputErrorView::EmptyDirectory { path: own_entry(found).path })
            } else {
                Ok(more)
            },
        }
    }
}

/// Something was found at the listed path at `i`: `found` holds an item at
/// `i`, under that path.
pub open spec fn was_read(paths: Seq<Seq<char>>, found: Seq<FoundView>, i: int) -> bool {
    i < found.len() && found[i].entry.path == paths[i]
}

/// The list after the first `n` listed paths are taken in order. What was
/// found at the path at `i` stands at `i`; a path at which nothing was
/// found is unreadable, and ends the list.
pub open spec fn collected(
    paths: Seq<Seq<char>>,
    found: Seq<FoundView>,
    args: CommandLine,
    n: nat,
) -> Result<Seq<SourceView>, InputErrorView>
    decreases n,
{
    if n == 0 {
        Ok(Seq::empty())
    } else {
        match collected(paths, found, args, (n - 1) as nat) {
            Err(e) => Err(e),
            Ok(so_far) => if was_read(paths, found, n - 1) {
                take_found(so_far, found[n - 1], args)
            } else {
                Err(
                    InputErrorView::Unreadable {
                        path: without_trailing_separators(paths[n - 1]),
                    },
                )
            },
        }
    }
}

/// The sources that the patterns give. Every pattern must have matched
/// something; the paths that they matched are listed pattern by pattern
/// and taken in order, each with what was found at it; and the list is put
/// in the natural order of its texts where that is asked for.
pub open spec fn sources_of(
    globbed: Seq<GlobbedView>,
    found: Seq<FoundView>,
    args: CommandLine,
) -> Result<Seq<SourceView>, InputErrorView> {
    match files_of(globbed, globbed.len()) {
        Err(e) => Err(e),
        Ok(paths) => match collected(paths, found, args, paths.len()) {
            Err(e) => Err(e),
            Ok(sources) => if args.sort {
                Ok(ranked::<Source>(sources))
            } else {
                Ok(sources)
            },
        },
    }
}

/// The result and the list agree with what was expected: the same error
/// with the given list, or the expected list.
pub open spec fn agrees(
    r: Result<(), InputError>,
    list: Seq<SourceView>,
    given: Seq<SourceView>,
    expected: Result<Seq<SourceView>, InputErrorView>,
) -> bool {
    match r {
        Ok(()) => expected == Ok::<Seq<SourceView>, InputErrorView>(list),
        Err(e) => expected == Err::<Seq<SourceView>, InputErrorView>(e@) && list == given,
    }
}

/// The result is the expected one: the same error, or a list with the
/// expected plain values.
pub open spec fn yields(
    r: Result<Vec<Source>, InputError>,
    expected: Result<Seq<SourceView>, InputErrorView>,
) -> bool {
    match r {
        Ok(list) => expected == Ok::<Seq<SourceView>, InputErrorView>(views(list@)),
        Err(e) => expected == Err::<Seq<SourceView>, InputErrorView>(e@),
    }
}

/// The text without trailing separators.
pub fn strip_trailing_separators(text: &str) -> (r: String)
    ensures
        r@ == without_trailing_separators(text@),
{
    let v = chars_of(text);
    let end = trim_separators_end(&v, 0, v.len());
    proof {
        assert(v@.subrange(0, v@.len() as int) =~= v@);
    }
    string_of(&v, 0, end)
}

/// Tells whether the entry at `file_path` is hidden: whether its name
/// starts with a dot. There is no answer where the path does not end in a
/// name.
pub fn is_hidden(file_path: &FilePath) -> (r: Option<bool>)
    ensures
        r == hidden(file_path@),
{
    match file_path.file_name() {
        Some(name) => {
            let v = chars_of(name.as_str());
            Some(v.len() > 0 && v[0] == '.')
        },
        None => None,
    }
}

/// Tells whether the entry is to be opened.
pub fn is_opened(meta: EntryKind, args: &CommandLine) -> (r: bool)
    ensures
        r == opens(meta, *args),
{
    !(meta == EntryKind::File || meta == EntryKind::Symlink || args.directory)
}

/// Offers one entry to the list of sources. The root is refused. A hidden
/// entry is passed over unless `args.with_hidden` is set, and so is one
/// whose text `args.exclude_pattern` matches. An entry whose absolute path
/// is that of a source of the list is refused. Any other entry joins the
/// list at its end, under `abs` where `args.absolute` is set and under
/// `path` otherwise. Where the entry is refused the list stays as it is.
pub fn put_source(sources: &mut Vec<Source>, entry: &Entry, args: &CommandLine) -> (r: Result<
    (),
    InputError,
>)
    ensures
        agrees(
            r,
            views(final(sources)@),
            views(old(sources)@),
            put(views(old(sources)@), entry@, *args),
        ),
{
    let ghost given = views(sources@);
    let abs = FilePath::parse(entry.abs.as_str());
    if !abs.has_parent() {
        return Err(InputError::RootSource { path: entry.path.clone() });
    }
    if !args.with_hidden {
        match is_hidden(&abs) {
            None => {
                return Err(InputError::Unnamed { abs: entry.abs.clone() });
            },
            Some(true) => {
                return Ok(());
            },
            Some(false) => {},
        }
    }
    let shown = if args.absolute {
        &entry.abs
    } else {
        &entry.path
    };
    let text = strip_trailing_separators(shown.as_str());
    match &args.exclude_pattern {
        Some(pattern) => {
            if is_match(pattern, text.as_str()) {
                return Ok(());
            }
        },
        None => {},
    }
    let ghost expected = put(given, entry@, *args);
    assert(expected == if holds(given, abs@) {
        Err::<Seq<SourceView>, InputErrorView>(InputErrorView::DuplicateSource { abs: entry.abs@ })
    } else {
        Ok::<Seq<SourceView>, InputErrorView>(given.push(source_of(entry@, *args)))
    });
    let mut i: usize = 0;
    while i < sources.len()
        invariant
            i <= sources.len(),
            given == views(sources@),
            sources@ == old(sources)@,
            expected == put(views(old(sources)@), entry@, *args),
            expected == if holds(given, abs@) {
                Err::<Seq<SourceView>, InputErrorView>(
                    InputErrorView::DuplicateSource { abs: entry.abs@ },
                )
            } else {
                Ok::<Seq<SourceView>, InputErrorView>(given.push(source_of(entry@, *args)))
            },
            forall|j: int| 0 <= j < i ==> (#[trigger] given[j]).abs != abs@,
        decreases sources.len() - i,
    {
        if sources[i].abs.same_as(&abs) {
            assert(given[i as int].abs == abs@);
            return Err(InputError::DuplicateSource { abs: entry.abs.clone() });
        }
        assert(given[i as int] == sources@[i as int]@);
        i += 1;
    }
    let source = Source {
        text,
        path: FilePath::parse(shown.as_str()),
        abs,
        meta: if args.absolute {
            entry.abs_meta
        } else {
            entry.meta
        },
    };
    proof {
        lemma_views_push(sources@, source);
    }
    sources.push(source);
    Ok(())
}

/// Once an entry is refused, the list stays refused.
pub proof fn lemma_refusal_stays(
    sources: Seq<SourceView>,
    entries: Seq<EntryView>,
    args: CommandLine,
    n: nat,
    m: nat,
)
    requires
        n <= m,
        put_all(sources, entries, args, n) is Err,
    ensures
        put_all(sources, entries, args, m) == put_all(sources, entries, args, n),
    decreases m,
{
    if n < m {
        lemma_refusal_stays(sources, entries, args, n, (m - 1) as nat);
    }
}

/// Once a listed path is refused, the collection stays refused.
pub proof fn lemma_failure_stays(
    paths: Seq<Seq<char>>,
    found: Seq<FoundView>,
    args: CommandLine,
    n: nat,
    m: nat,
)
    requires
        n <= m,
        collected(paths, found, args, n) is Err,
    ensures
        collected(paths, found, args, m) == collected(paths, found, args, n),
    decreases m,
{
    if n < m {
        lemma_failure_stays(paths, found, args, n, (m - 1) as nat);
    }
}

/// Takes what was found at one listed path: offers the entry itself, or,
/// where it is to be opened, its entries in the natural order of their
/// paths, of which at least one must join the list.
fn take(sources: &mut Vec<Source>, found: &Found, args: &CommandLine) -> (r: Result<
    (),
    InputError,
>)
    ensures
        match r {
            Ok(()) => take_found(views(old(sources)@), found@, *args) == Ok::<
                Seq<SourceView>,
                InputErrorView,
            >(views(final(sources)@)),
            Err(e) => take_found(views(old(sources)@), found@, *args) == Err::<
                Seq<SourceView>,
                InputErrorView,
            >(e@),
        },
{
    let ghost start = views(sources@);
    let path = strip_trailing_separators(found.entry.path.as_str());
    if !is_opened(found.entry.meta, args) {
        let own = Entry {
            path,
            abs: found.entry.abs.clone(),
            meta: found.entry.meta,
            abs_meta: found.entry.abs_meta,
        };
        assert(own@ == own_entry(found@));
        return put_source(sources, &own, args);
    }
    let mut children: Vec<Entry> = Vec::new();
    let mut c: usize = 0;
    assert(views(children@) =~= found@.children.take(0));
    while c < found.children.len()
        invariant
            c <= found.children.len(),
            views(children@) == found@.children.take(c as int),
        decreases found.children.len() - c,
    {
        let child = found.children[c].clone();
        proof {
            lemma_views_push(children@, child);
            assert(found@.children.take(c + 1) =~= found@.children.take(c as int).push(child@));
        }
        children.push(child);
        c += 1;
    }
    assert(found@.children.take(c as int) =~= found@.children);
    arrange(&mut children);
    let ghost cv = views(children@);
    let before = sources.len();
    let mut k: usize = 0;
    while k < children.len()
        invariant
            k <= children.len(),
            cv == views(children@),
            cv == ranked::<Entry>(found@.children),
            opens(found@.entry.meta, *args),
            start == views(old(sources)@),
            before == start.len(),
            put_all(start, cv, *args, k as nat) == Ok::<Seq<SourceView>, InputErrorView>(
                views(sources@),
            ),
        decreases children.len() - k,
    {
        assert(cv[k as int] == children@[k as int]@);
        match put_source(sources, &children[k], args) {
            Err(e) => {
                proof {
                    lemma_refusal_stays(start, cv, *args, (k + 1) as nat, children.len() as nat);
                }
                return Err(e);
            },
            Ok(()) => {},
        }
        k += 1;
    }
    if sources.len() == before {
        return Err(InputError::EmptyDirectory { path });
    }
    Ok(())
}

/// The sources that the patterns give. `globbed` holds the patterns with
/// what they matched; `found` holds, for each path that [`list_files`]
/// lists for them, in the same order, what was found on disk at it. Every
/// pattern must have matched something. Each listed path is then taken in
/// turn. A path for which `found` holds nothing, or holds something under
/// another path, is unreadable. What is not to be opened is offered itself,
/// without trailing separators; what is to be opened has its entries
/// offered in the natural order of their paths, and at least one of them
/// must be taken. With `args.sort` the list is then put in the natural
/// order of its texts.
pub fn sources_from(args: &CommandLine, globbed: &Vec<Globbed>, found: &Vec<Found>) -> (r: Result<
    Vec<Source>,
    InputError,
>)
    ensures
        yields(r, sources_of(views(globbed@), views(found@), *args)),
{
    let paths = match list_files(globbed) {
        Err(e) => {
            return Err(e);
        },
        Ok(paths) => paths,
    };
    let ghost pv = views(paths@);
    let ghost fv = views(found@);
    let mut sources: Vec<Source> = Vec::new();
    let mut i: usize = 0;
    assert(views(sources@) =~= Seq::<SourceView>::empty());
    while i < paths.len()
        invariant
            i <= paths.len(),
            pv == views(paths@),
            fv == views(found@),
            files_of(views(globbed@), globbed@.len()) == Ok::<Seq<Seq<char>>, InputErrorView>(pv),
            collected(pv, fv, *args, i as nat) == Ok::<Seq<SourceView>, InputErrorView>(
                views(sources@),
            ),
        decreases paths.len() - i,
    {
        assert(pv[i as int] == paths@[i as int]@);
        if !(i < found.len() && found[i].entry.path == paths[i]) {
            proof {
                if i < found.len() {
                    assert(fv[i as int] == found@[i as int]@);
                }
                lemma_failure_stays(pv, fv, *args, (i + 1) as nat, paths.len() as nat);
            }
            return Err(
                InputError::Unreadable { path: strip_trailing_separators(paths[i].as_str()) },
            );
        }
        assert(fv[i as int] == found@[i as int]@);
        match take(&mut sources, &found[i], args) {
            Err(e) => {
                proof {
                    lemma_failure_stays(pv, fv, *args, (i + 1) as nat, paths.len() as nat);
                }
                return Err(e);
            },
            Ok(()) => {},
        }
        i += 1;
    }
    if args.sort {
        arrange(&mut sources);
    }
    Ok(sources)
}

/// No two sources of the list have the same absolute path.
pub open spec fn told_apart(sources: Seq<SourceView>) -> bool {
    forall|a: int, b: int|
        0 <= a < sources.len() && 0 <= b < sources.len() && a != b ==> (#[trigger] sources[a]).abs
            != (#[trigger] sources[b]).abs
}

/// An entry that is in the list already never joins it again: it is
/// refused as a duplicate, unless it is refused or passed over for another
/// reason first.
pub proof fn lemma_second_sighting_is_refused(
    sources: Seq<SourceView>,
    entry: EntryView,
    args: CommandLine,
)
    requires
        holds(sources, components(entry.abs)),
    ensures
        put(sources, entry, args) matches Ok(list) ==> list == sources,
        has_parent(components(entry.abs)) && (args.with_hidden || hidden(components(entry.abs))
            == Some(false)) && !excluded(source_of(entry, args).text, args) ==> put(
            sources,
            entry,
            args,
        ) == Err::<Seq<SourceView>, InputErrorView>(
            InputErrorView::DuplicateSource { abs: entry.abs },
        ),
{
}

/// Offering an entry to a list whose sources are told apart leaves them
/// told apart.
pub proof fn lemma_put_keeps_apart(sources: Seq<SourceView>, entry: EntryView, args: CommandLine)
    requires
        told_apart(sources),
        put(sources, entry, args) is Ok,
    ensures
        told_apart(put(sources, entry, args)->Ok_0),
        put(sources, entry, args)->Ok_0.len() >= sources.len(),
{
    let list = put(sources, entry, args)->Ok_0;
    if list != sources {
        assert(list == sources.push(source_of(entry, args)));
        assert forall|a: int, b: int|
            0 <= a < list.len() && 0 <= b < list.len() && a != b implies (#[trigger] list[a]).abs
            != (#[trigger] list[b]).abs by {
            if a < sources.len() {
                assert(list[a] == sources[a]);
            }
            if b < sources.len() {
                assert(list[b] == sources[b]);
            }
        }
    }
}

/// Offering entries in turn leaves the sources told apart.
pub proof fn lemma_put_all_keeps_apart(
    sources: Seq<SourceView>,
    entries: Seq<EntryView>,
    args: CommandLine,
    n: nat,
)
    requires
        told_apart(sources),
        put_all(sources, entries, args, n) is Ok,
    ensures
        told_apart(put_all(sources, entries, args, n)->Ok_0),
        put_all(sources, entries, args, n)->Ok_0.len() >= sources.len(),
    decreases n,
{
    if n > 0 {
        lemma_put_all_keeps_apart(sources, entries, args, (n - 1) as nat);
        lemma_put_keeps_apart(
            put_all(sources, entries, args, (n - 1) as nat)->Ok_0,
            entries[n - 1],
            args,
        );
    }
}

/// Whatever was found, no canonical path is collected twice.
pub proof fn lemma_collected_are_told_apart(
    paths: Seq<Seq<char>>,
    found: Seq<FoundView>,
    args: CommandLine,
    n: nat,
)
    requires
        collected(paths, found, args, n) is Ok,
    ensures
        told_apart(collected(paths, found, args, n)->Ok_0),
    decreases n,
{
    if n > 0 {
        lemma_collected_are_told_apart(paths, found, args, (n - 1) as nat);
        let so_far = collected(paths, found, args, (n - 1) as nat)->Ok_0;
        let f = found[n - 1];
        if !opens(f.entry.meta, args) {
            lemma_put_keeps_apart(so_far, own_entry(f), args);
        } else {
            let children = ranked::<Entry>(f.children);
            lemma_put_all_keeps_apart(so_far, children, args, children.len());
        }
    }
}

/// The sources that come out of a collection all differ in their absolute
/// paths, in whatever order they are listed.
pub proof fn lemma_sources_are_told_apart(
    globbed: Seq<GlobbedView>,
    found: Seq<FoundView>,
    args: CommandLine,
)
    requires
        sources_of(globbed, found, args) is Ok,
    ensures
        told_apart(sources_of(globbed, found, args)->Ok_0),
{
    let paths = files_of(globbed, globbed.len())->Ok_0;
    lemma_collected_are_told_apart(paths, found, args, paths.len());
    if args.sort {
        let sources = collected(paths, found, args, paths.len())->Ok_0;
        let apart = |a: SourceView, b: SourceView| a.abs != b.abs;
        lemma_arranged_keeps_apart(sources, rank_of::<Source>(), apart);
        let list = ranked::<Source>(sources);
        assert forall|a: int, b: int|
            0 <= a < list.len() && 0 <= b < list.len() && a != b implies (#[trigger] list[a]).abs
            != (#[trigger] list[b]).abs by {
            assert(apart(list[a], list[b]));
        }
    }
}

/// The source passes the filters: it is not the root; it is not hidden,
/// unless hidden entries are asked for; and the pattern to leave out does
/// not match its text.
pub open spec fn admitted(source: SourceView, args: CommandLine) -> bool {
    &&& has_parent(source.abs)
    &&& args.with_hidden || hidden(source.abs) == Some(false)
    &&& !excluded(source.text, args)
}

/// Offering an entry to a list of admitted sources leaves a list of
/// admitted sources.
pub proof fn lemma_put_admits(sources: Seq<SourceView>, entry: EntryView, args: CommandLine)
    requires
        forall|i: int| 0 <= i < sources.len() ==> admitted(#[trigger] sources[i], args),
        put(sources, entry, args) is Ok,
    ensures
        forall|i: int|
            0 <= i < put(sources, entry, args)->Ok_0.len() ==> admitted(
                #[trigger] put(sources, entry, args)->Ok_0[i],
                args,
            ),
{
    let list = put(sources, entry, args)->Ok_0;
    assert forall|i: int| 0 <= i < list.len() implies admitted(#[trigger] list[i], args) by {
        if i < sources.len() {
            assert(list[i] == sources[i]);
        }
    }
}

/// Offering entries in turn leaves a list of admitted sources.
pub proof fn lemma_put_all_admits(
    sources: Seq<SourceView>,
    entries: Seq<EntryView>,
    args: CommandLine,
    n: nat,
)
    requires
        forall|i: int| 0 <= i < sources.len() ==> admitted(#[trigger] sources[i], args),
        put_all(sources, entries, args, n) is Ok,
    ensures
        forall|i: int|
            0 <= i < put_all(sources, entries, args, n)->Ok_0.len() ==> admitted(
                #[trigger] put_all(sources, entries, args, n)->Ok_0[i],
                args,
            ),
    decreases n,
{
    if n > 0 {
        lemma_put_all_admits(sources, entries, args, (n - 1) as nat);
        lemma_put_admits(
            put_all(sources, entries, args, (n - 1) as nat)->Ok_0,
            entries[n - 1],
            args,
        );
    }
}

/// Whatever was found, only admitted sources are collected.
pub proof fn lemma_collected_are_admitted(
    paths: Seq<Seq<char>>,
    found: Seq<FoundView>,
    args: CommandLine,
    n: nat,
)
    requires
        collected(paths, found, args, n) is Ok,
    ensures
        forall|i: int|
            0 <= i < collected(paths, found, args, n)->Ok_0.len() ==> admitted(
                #[trigger] collected(paths, found, args, n)->Ok_0[i],
                args,
            ),
    decreases n,
{
    if n > 0 {
        lemma_collected_are_admitted(paths, found, args, (n - 1) as nat);
        let so_far = collected(paths, found, args, (n - 1) as nat)->Ok_0;
        let f = found[n - 1];
        if !opens(f.entry.meta, args) {
            lemma_put_admits(so_far, own_entry(f), args);
        } else {
            let children = ranked::<Entry>(f.children);
            lemma_put_all_admits(so_far, children, args, children.len());
        }
    }
}

/// Every source that comes out of a collection has passed the filters.
pub proof fn lemma_sources_are_admitted(
    globbed: Seq<GlobbedView>,
    found: Seq<FoundView>,
    args: CommandLine,
)
    requires
        sources_of(globbed, found, args) is Ok,
    ensures
        forall|i: int|
            0 <= i < sources_of(globbed, found, args)->Ok_0.len() ==> admitted(
                #[trigger] sources_of(globbed, found, args)->Ok_0[i],
                args,
            ),
{
    let paths = files_of(globbed, globbed.len())->Ok_0;
    lemma_collected_are_admitted(paths, found, args, paths.len());
    if args.sort {
        let sources = collected(paths, found, args, paths.len())->Ok_0;
        lemma_arranged_items(sources, rank_of::<Source>());
        let list = ranked::<Source>(sources);
        assert forall|i: int| 0 <= i < list.len() implies admitted(#[trigger] list[i], args) by {
            assert(sources.contains(list[i]));
            let k = choose|k: int| 0 <= k < sources.len() && sources[k] == list[i];
            assert(admitted(sources[k], args));
        }
    }
}

/// One path that a pattern matched.
#[derive(Debug)]
pub struct Hit {
    /// The path as the pattern gave it.
    pub path: String,
    /// The canonical path of what it names.
    pub canonical: FilePath,
}

/// The plain value of a [`Hit`].
pub struct HitView {
    pub path: Seq<char>,
    pub canonical: Seq<Seq<char>>,
}

impl View for Hit {
    type V = HitView;

    open spec fn view(&self) -> HitView {
        HitView { path: self.path@, canonical: self.canonical@ }
    }
}

impl Clone for Hit {
    fn clone(&self) -> (r: Self)
        ensures
            r@ == self@,
    {
        Hit { path: self.path.clone(), canonical: self.canonical.clone() }
    }
}

/// Hits are put in the order of their canonical paths.
impl Ranked for Hit {
    open spec fn before(a: HitView, b: HitView) -> bool {
        path_before(a.canonical, b.canonical)
    }

    fn comes_before(&self, other: &Self) -> (r: bool) {
        self.canonical.comes_before(&other.canonical)
    }
}

/// One pattern with the paths that it matched.
#[derive(Debug)]
pub struct Globbed {
    pub pattern: String,
    pub hits: Vec<Hit>,
}

/// The plain value of a [`Globbed`].
pub struct GlobbedView {
    pub pattern: Seq<char>,
    pub hits: Seq<HitView>,
}

impl View for Globbed {
    type V = GlobbedView;

    open spec fn view(&self) -> GlobbedView {
        GlobbedView { pattern: self.pattern@, hits: views(self.hits@) }
    }
}

/// What one pattern matched comes out sorted by canonical path: no hit has
/// a canonical path that comes before that of a hit in front of it.
pub proof fn lemma_hits_are_sorted(hits: Seq<HitView>)
    ensures
        forall|i: int, j: int|
            #![trigger ranked::<Hit>(hits)[i], ranked::<Hit>(hits)[j]]
            0 <= i < j < ranked::<Hit>(hits).len() ==> !path_before(
                ranked::<Hit>(hits)[j].canonical,
                ranked::<Hit>(hits)[i].canonical,
            ),
{
    let before = rank_of::<Hit>();
    assert(is_strict_order(before)) by {
        assert forall|a: HitView, b: HitView| #[trigger] before(a, b) implies !before(b, a) by {
            lemma_path_order_is_one_way(a.canonical, b.canonical);
        }
        assert forall|a: HitView, b: HitView, c: HitView|
            !(#[trigger] before(b, a)) && !(#[trigger] before(c, b)) implies !before(c, a) by {
            lemma_path_order_keeps_on(a.canonical, b.canonical, c.canonical);
        }
    }
    lemma_arranged_is_sorted(hits, before);
}

/// The text under which a matched path is listed: the path with `..`
/// resolved.
pub open spec fn listed_text(hit: HitView) -> Seq<char> {
    rendered(collapse(components(hit.path)))
}

/// The texts of the hits, in their order.
pub open spec fn listed_texts(hits: Seq<HitView>) -> Seq<Seq<char>> {
    Seq::new(hits.len(), |i: int| listed_text(hits[i]))
}

/// The paths that the first `n` patterns give: for each pattern in turn,
/// what it matched, in the order of the canonical paths. A pattern that
/// matched nothing ends the list.
pub open spec fn files_of(globbed: Seq<GlobbedView>, n: nat) -> Result<
    Seq<Seq<char>>,
    InputErrorView,
>
    decreases n,
{
    if n == 0 {
        Ok(Seq::empty())
    } else {
        match files_of(globbed, (n - 1) as nat) {
            Err(e) => Err(e),
            Ok(paths) => if globbed[n - 1].hits.len() == 0 {
                Err(InputErrorView::NoMatch { pattern: globbed[n - 1].pattern })
            } else {
                Ok(paths + listed_texts(ranked::<Hit>(globbed[n - 1].hits)))
            },
        }
    }
}

/// Once a pattern has matched nothing, the list stays refused.
pub proof fn lemma_no_match_stays(globbed: Seq<GlobbedView>, n: nat, m: nat)
    requires
        n <= m,
        files_of(globbed, n) is Err,
    ensures
        files_of(globbed, m) == files_of(globbed, n),
    decreases m,
{
    if n < m {
        lemma_no_match_stays(globbed, n, (m - 1) as nat);
    }
}

/// The paths that the patterns give, pattern by pattern; those of one
/// pattern come in the order of their canonical paths, each with `..`
/// resolved. Every pattern must have matched something.
pub fn list_files(globbed: &Vec<Globbed>) -> (r: Result<Vec<String>, InputError>)
    ensures
        match r {
            Ok(paths) => files_of(views(globbed@), globbed@.len()) == Ok::<
                Seq<Seq<char>>,
                InputErrorView,
            >(views(paths@)),
            Err(e) => files_of(views(globbed@), globbed@.len()) == Err::<
                Seq<Seq<char>>,
                InputErrorView,
            >(e@),
        },
{
    let ghost gv = views(globbed@);
    let mut paths: Vec<String> = Vec::new();
    let mut i: usize = 0;
    assert(views(paths@) =~= Seq::<Seq<char>>::empty());
    while i < globbed.len()
        invariant
            i <= globbed.len(),
            gv == views(globbed@),
            files_of(gv, i as nat) == Ok::<Seq<Seq<char>>, InputErrorView>(views(paths@)),
        decreases globbed.len() - i,
    {
        let g = &globbed[i];
        assert(gv[i as int] == g@);
        if g.hits.len() == 0 {
            proof {
                lemma_no_match_stays(gv, (i + 1) as nat, globbed.len() as nat);
            }
            return Err(InputError::NoMatch { pattern: g.pattern.clone() });
        }
        let mut hits: Vec<Hit> = Vec::new();
        let mut c: usize = 0;
        assert(views(hits@) =~= g@.hits.take(0));
        while c < g.hits.len()
            invariant
                c <= g.hits.len(),
                views(hits@) == g@.hits.take(c as int),
            decreases g.hits.len() - c,
        {
            let hit = g.hits[c].clone();
            proof {
                lemma_views_push(hits@, hit);
                assert(g@.hits.take(c + 1) =~= g@.hits.take(c as int).push(hit@));
            }
            hits.push(hit);
            c += 1;
        }
        assert(g@.hits.take(c as int) =~= g@.hits);
        arrange(&mut hits);
        let ghost hv = views(hits@);
        let ghost start = views(paths@);
        let mut k: usize = 0;
        assert(listed_texts(hv.take(0)) =~= Seq::<Seq<char>>::empty());
        assert(start + Seq::<Seq<char>>::empty() =~= start);
        while k < hits.len()
            invariant
                k <= hits.len(),
                hv == views(hits@),
                views(paths@) == start + listed_texts(hv.take(k as int)),
            decreases hits.len() - k,
        {
            let text = normalize(&FilePath::parse(hits[k].path.as_str())).to_text();
            proof {
                assert(hv[k as int] == hits@[k as int]@);
                lemma_views_push(paths@, text);
                assert(listed_texts(hv.take(k + 1)) =~= listed_texts(hv.take(k as int)).push(
                    listed_text(hv[k as int]),
                ));
                assert((start + listed_texts(hv.take(k as int))).push(text@) =~= start
                    + listed_texts(hv.take(k + 1)));
            }
            paths.push(text);
            k += 1;
        }
        assert(hv.take(k as int) =~= hv);
        i += 1;
    }
    Ok(paths)
}

} // verus!
