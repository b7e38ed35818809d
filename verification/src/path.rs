//! Lexical paths: a path is the sequence of its components, and nothing here
//! touches the filesystem.
//!
//! The model of a path is `Seq<Seq<char>>`. A rooted path starts with the
//! component `/`; a path written with a leading `.` keeps that component;
//! `..` is a component like any other until [`collapse`] resolves it. Two
//! paths are the same path when their components are equal, so `a//b/` and
//! `a/./b` are both the path `a`, `b`.

use crate::spelling::{
    is_name, lemma_behind_is_sound, lemma_collapse_keeps_sound, lemma_components_are_sound,
    lemma_neighbours_are_sound, lemma_text_reads_back, sound, sound_at,
};
use crate::text::{
    chars_of, lemma_split_nonempty, lemma_views_drop_last, lemma_views_push, split, split_ranges,
    string_of, views,
};
use vstd::prelude::*;

verus! {

/// The component that stands for the root directory.
pub open spec fn root_name() -> Seq<char> {
    seq!['/']
}

/// The component `.`.
pub open spec fn current_name() -> Seq<char> {
    seq!['.']
}

/// The component `..`.
pub open spec fn parent_name() -> Seq<char> {
    seq!['.', '.']
}

/// A piece between separators names something unless it is empty or `.`.
pub open spec fn kept(piece: Seq<char>) -> bool {
    piece.len() > 0 && piece != current_name()
}

/// The pieces that name something, in order.
pub open spec fn named(pieces: Seq<Seq<char>>) -> Seq<Seq<char>>
    decreases pieces.len(),
{
    if pieces.len() == 0 {
        Seq::empty()
    } else if kept(pieces.last()) {
        named(pieces.drop_last()).push(pieces.last())
    } else {
        named(pieces.drop_last())
    }
}

/// What the start of a path's text contributes: its first piece as it is
/// (a leading `.` included), or the root where the text starts with a
/// separator, or nothing where the text is empty.
pub open spec fn lead(s: Seq<char>) -> Seq<Seq<char>> {
    let first = split(s, '/')[0];
    if first.len() > 0 {
        seq![first]
    } else if s.len() > 0 {
        seq![root_name()]
    } else {
        Seq::empty()
    }
}

/// The components of the path written as `s`: repeated and trailing
/// separators count for nothing, and `.` counts only at the very start.
pub open spec fn components(s: Seq<char>) -> Seq<Seq<char>> {
    lead(s) + named(split(s, '/').drop_first())
}

/// A path has a parent unless it is empty or ends in the root.
pub open spec fn has_parent(p: Seq<Seq<char>>) -> bool {
    p.len() > 0 && p.last() != root_name()
}

/// The last component, where it is the name of an entry: not the root, not
/// `.` and not `..`.
pub open spec fn name_of(p: Seq<Seq<char>>) -> Option<Seq<char>> {
    if p.len() > 0 && p.last() != root_name() && p.last() != current_name() && p.last()
        != parent_name() {
        Some(p.last())
    } else {
        None
    }
}

/// The path one step up, as far as the text alone tells: the name at the
/// end is taken away, any `.` behind it with it; where no name stands at
/// the end (the path is empty, or ends in the root or in `..`) a `..` is
/// put behind it.
pub open spec fn climbed(p: Seq<Seq<char>>) -> Seq<Seq<char>>
    decreases p.len(),
{
    if p.len() > 0 && p.last() == current_name() {
        climbed(p.drop_last())
    } else if name_of(p) is Some {
        p.drop_last()
    } else {
        p.push(parent_name())
    }
}

/// The path with each `..` resolved against what stands before it, from
/// left to right: `..` takes away the name before it and stays where there
/// is none, so that the result names the same place as the path, whatever
/// is on disk. `a/../b` becomes `b`, `./../a` becomes `../a`, and `../../a`
/// stays as it is.
pub open spec fn collapse(p: Seq<Seq<char>>) -> Seq<Seq<char>>
    decreases p.len(),
{
    if p.len() == 0 {
        p
    } else if p.last() == parent_name() {
        climbed(collapse(p.drop_last()))
    } else {
        collapse(p.drop_last()).push(p.last())
    }
}

/// The path starts at the root.
pub open spec fn is_rooted(p: Seq<Seq<char>>) -> bool {
    p.len() > 0 && p[0] == root_name()
}

/// The path without a `.` at its start.
pub open spec fn without_lead(p: Seq<Seq<char>>) -> Seq<Seq<char>> {
    if p.len() > 0 && p[0] == current_name() {
        p.drop_first()
    } else {
        p
    }
}

/// The place that `p` names when it is read in the directory `base`: `p`
/// itself where it starts at the root, and `p` behind `base` otherwise, in
/// both cases with `..` resolved. Two spellings of one directory, one from
/// the root and one from `base`, are the same place.
pub open spec fn placed(p: Seq<Seq<char>>, base: Seq<Seq<char>>) -> Seq<Seq<char>> {
    if is_rooted(p) {
        collapse(p)
    } else {
        collapse(base + without_lead(p))
    }
}

/// `a` is `b` or lies below it: `b` is reached from `a` by taking the parent
/// zero or more times.
pub open spec fn within(a: Seq<Seq<char>>, b: Seq<Seq<char>>) -> bool {
    &&& b.len() <= a.len()
    &&& a.take(b.len() as int) == b
    &&& forall|j: int| b.len() <= j < a.len() ==> #[trigger] a[j] != root_name()
}

/// The text of a path: its components joined by single separators, a root
/// component starting the text afresh.
pub open spec fn rendered(p: Seq<Seq<char>>) -> Seq<char>
    decreases p.len(),
{
    if p.len() == 0 {
        Seq::empty()
    } else {
        let before = rendered(p.drop_last());
        if p.last() == root_name() {
            p.last()
        } else if before.len() > 0 && before.last() != '/' {
            before.push('/') + p.last()
        } else {
            before + p.last()
        }
    }
}

/// `a` comes before `b` in the order of the dictionary, character by
/// character.
pub open spec fn text_before(a: Seq<char>, b: Seq<char>) -> bool
    decreases a.len(),
{
    if b.len() == 0 {
        false
    } else if a.len() == 0 {
        true
    } else if a[0] != b[0] {
        a[0] < b[0]
    } else {
        text_before(a.drop_first(), b.drop_first())
    }
}

/// `a` comes before `b` in the order of the dictionary, component by
/// component.
pub open spec fn path_before(a: Seq<Seq<char>>, b: Seq<Seq<char>>) -> bool
    decreases a.len(),
{
    if b.len() == 0 {
        false
    } else if a.len() == 0 {
        true
    } else if a[0] != b[0] {
        text_before(a[0], b[0])
    } else {
        path_before(a.drop_first(), b.drop_first())
    }
}

/// A path, held as its components. Every path is sound: the root and `.`
/// stand only at its start, and every other component is a name.
#[derive(Debug)]
pub struct FilePath {
    parts: Vec<String>,
}

impl View for FilePath {
    type V = Seq<Seq<char>>;

    closed spec fn view(&self) -> Seq<Seq<char>> {
        views(self.parts@)
    }
}

/// Tells whether the string is the one character `a`.
fn is_text(s: &String, a: char) -> (r: bool)
    ensures
        r == (s@ == seq![a]),
{
    let v = chars_of(s.as_str());
    let r = v.len() == 1 && v[0] == a;
    proof {
        if r {
            assert(s@ =~= seq![a]);
        }
    }
    r
}

/// Tells whether `a` comes before `b` in the order of the dictionary.
fn comes_first(a: &String, b: &String) -> (r: bool)
    ensures
        r == text_before(a@, b@),
{
    let x = chars_of(a.as_str());
    let y = chars_of(b.as_str());
    let mut i: usize = 0;
    assert(x@.skip(0) =~= x@ && y@.skip(0) =~= y@);
    while i < x.len() && i < y.len()
        invariant
            i <= x.len(),
            i <= y.len(),
            x@ == a@,
            y@ == b@,
            text_before(a@, b@) == text_before(x@.skip(i as int), y@.skip(i as int)),
        decreases x.len() - i,
    {
        proof {
            assert(x@.skip(i as int).drop_first() =~= x@.skip(i + 1));
            assert(y@.skip(i as int).drop_first() =~= y@.skip(i + 1));
        }
        if x[i] != y[i] {
            return x[i] < y[i];
        }
        i += 1;
    }
    i < y.len()
}

/// Tells whether the string is `..`.
fn is_parent_name(s: &String) -> (r: bool)
    ensures
        r == (s@ == parent_name()),
{
    let v = chars_of(s.as_str());
    let r = v.len() == 2 && v[0] == '.' && v[1] == '.';
    proof {
        if r {
            assert(s@ =~= parent_name());
        }
    }
    r
}

impl Clone for FilePath {
    fn clone(&self) -> (r: Self)
        ensures
            r@ == self@,
    {
        let parts = self.first_parts(self.parts.len());
        proof {
            use_type_invariant(self);
            assert(self@.take(self@.len() as int) =~= self@);
        }
        FilePath { parts }
    }
}

impl PartialEq for FilePath {
    fn eq(&self, other: &Self) -> (r: bool) {
        self.same_as(other)
    }
}

impl vstd::std_specs::cmp::PartialEqSpecImpl for FilePath {
    open spec fn obeys_eq_spec() -> bool {
        true
    }

    open spec fn eq_spec(&self, other: &Self) -> bool {
        self@ == other@
    }
}

impl FilePath {
    #[verifier::type_invariant]
    spec fn is_sound(self) -> bool {
        sound(views(self.parts@))
    }

    /// Copies of the first `n` components.
    fn first_parts(&self, n: usize) -> (parts: Vec<String>)
        requires
            n <= self@.len(),
        ensures
            views(parts@) == self@.take(n as int),
    {
        let mut parts: Vec<String> = Vec::new();
        let mut i: usize = 0;
        assert(views(parts@) =~= self@.take(0));
        while i < n
            invariant
                i <= n <= self.parts.len(),
                views(parts@) == self@.take(i as int),
            decreases n - i,
        {
            proof {
                lemma_views_push(parts@, self.parts@[i as int]);
            }
            parts.push(self.parts[i].clone());
            i += 1;
            assert(self@.take(i as int) =~= self@.take(i - 1).push(self@[i - 1]));
        }
        parts
    }

    /// The empty path.
    pub fn new() -> (r: Self)
        ensures
            r@ == Seq::<Seq<char>>::empty(),
    {
        let parts: Vec<String> = Vec::new();
        assert(views(parts@) =~= Seq::<Seq<char>>::empty());
        FilePath { parts }
    }

    /// Reads a path from its text.
    pub fn parse(s: &str) -> (r: Self)
        ensures
            r@ == components(s@),
            sound(r@),
    {
        let v = chars_of(s);
        let ranges = split_ranges(&v, '/');
        proof {
            lemma_split_nonempty(v@, '/');
        }
        let ghost pieces = split(v@, '/');
        let mut parts: Vec<String> = Vec::new();
        let (a, b) = ranges[0];
        if a < b {
            parts.push(string_of(&v, a, b));
        } else if v.len() > 0 {
            let mut root = String::new();
            root.push('/');
            parts.push(root);
        }
        assert(views(parts@) =~= lead(s@));
        let ghost rest = pieces.drop_first();
        let mut k: usize = 1;
        while k < ranges.len()
            invariant
                1 <= k <= ranges.len(),
                v@ == s@,
                pieces == split(v@, '/'),
                rest == pieces.drop_first(),
                ranges@.len() == pieces.len(),
                forall|j: int|
                    0 <= j < ranges@.len() ==> {
                        &&& (#[trigger] ranges@[j]).0 <= ranges@[j].1 <= v@.len()
                        &&& pieces[j] == v@.subrange(ranges@[j].0 as int, ranges@[j].1 as int)
                    },
                views(parts@) == lead(s@) + named(rest.take(k - 1)),
            decreases ranges.len() - k,
        {
            let (a, b) = ranges[k];
            let piece = string_of(&v, a, b);
            proof {
                assert(rest.take(k as int).drop_last() =~= rest.take(k - 1));
                assert(rest.take(k as int).last() == pieces[k as int]);
            }
            if a < b && !is_text(&piece, '.') {
                proof {
                    lemma_views_push(parts@, piece);
                }
                parts.push(piece);
                assert(views(parts@) =~= lead(s@) + named(rest.take(k as int)));
            }
            k += 1;
        }
        assert(rest.take(k - 1) =~= rest);
        proof {
            lemma_components_are_sound(s@);
        }
        FilePath { parts }
    }

    /// The text of the path. It reads as this path.
    pub fn to_text(&self) -> (s: String)
        ensures
            s@ == rendered(self@),
            components(s@) == self@,
    {
        proof {
            use_type_invariant(self);
            lemma_text_reads_back(self@);
        }
        let mut s = String::new();
        let mut open_end = false;
        let mut i: usize = 0;
        assert(self@.take(0) =~= Seq::<Seq<char>>::empty());
        while i < self.parts.len()
            invariant
                i <= self.parts.len(),
                s@ == rendered(self@.take(i as int)),
                open_end == (s@.len() > 0 && s@.last() != '/'),
            decreases self.parts.len() - i,
        {
            let part = chars_of(self.parts[i].as_str());
            proof {
                assert(self@.take(i + 1).drop_last() =~= self@.take(i as int));
                assert(self@.take(i + 1).last() == part@);
            }
            if is_text(&self.parts[i], '/') {
                s = String::new();
            } else if open_end {
                s.push('/');
            }
            let ghost base = s@;
            let mut j: usize = 0;
            while j < part.len()
                invariant
                    j <= part.len(),
                    s@ == base + part@.take(j as int),
                decreases part.len() - j,
            {
                s.push(part[j]);
                j += 1;
                assert(part@.take(j as int) =~= part@.take(j - 1).push(part@[j - 1]));
                assert(s@ =~= base + part@.take(j as int));
            }
            proof {
                assert(part@.take(j as int) =~= part@);
                if part@ == root_name() {
                    assert(base + part@ =~= part@);
                }
            }
            open_end = part.len() > 0 && part[part.len() - 1] != '/';
            i += 1;
        }
        assert(self@.take(i as int) =~= self@);
        s
    }

    /// The number of components.
    pub fn len(&self) -> (n: usize)
        ensures
            n == self@.len(),
    {
        self.parts.len()
    }

    /// Tells whether the path has no component at all.
    pub fn is_empty(&self) -> (r: bool)
        ensures
            r == (self@.len() == 0),
    {
        self.parts.len() == 0
    }

    /// Tells whether the two paths have the same components.
    pub fn same_as(&self, other: &FilePath) -> (r: bool)
        ensures
            r == (self@ == other@),
    {
        if self.parts.len() != other.parts.len() {
            assert(self@.len() != other@.len());
            return false;
        }
        let mut i: usize = 0;
        while i < self.parts.len()
            invariant
                i <= self.parts.len(),
                self.parts.len() == other.parts.len(),
                forall|j: int| 0 <= j < i ==> self@[j] == other@[j],
            decreases self.parts.len() - i,
        {
            if self.parts[i] != other.parts[i] {
                assert(self@[i as int] != other@[i as int]);
                return false;
            }
            i += 1;
        }
        assert(self@ =~= other@);
        true
    }

    /// Tells whether the path has a parent.
    pub fn has_parent(&self) -> (r: bool)
        ensures
            r == has_parent(self@),
    {
        let n = self.parts.len();
        n > 0 && !is_text(&self.parts[n - 1], '/')
    }

    /// The path without its last component, where it has a parent.
    pub fn parent(&self) -> (r: Option<FilePath>)
        ensures
            match r {
                Some(p) => has_parent(self@) && p@ == self@.drop_last() && sound(p@),
                None => !has_parent(self@),
            },
    {
        if !self.has_parent() {
            return None;
        }
        let n = self.parts.len() - 1;
        let parts = self.first_parts(n);
        assert(self@.take(n as int) =~= self@.drop_last());
        proof {
            use_type_invariant(self);
            lemma_neighbours_are_sound(self@, Seq::empty());
        }
        Some(FilePath { parts })
    }

    /// The name of the entry that the path ends in, where it ends in one.
    pub fn file_name(&self) -> (r: Option<String>)
        ensures
            match r {
                Some(name) => name_of(self@) == Some(name@) && is_name(name@),
                None => name_of(self@) is None,
            },
    {
        let n = self.parts.len();
        if n == 0 {
            return None;
        }
        let last = &self.parts[n - 1];
        proof {
            use_type_invariant(self);
            assert(sound_at(self@, n - 1));
        }
        if is_text(last, '/') || is_text(last, '.') || is_parent_name(last) {
            None
        } else {
            Some(last.clone())
        }
    }

    /// The path that names `name` directly under this one. `name` is to be
    /// the name of an entry: not empty, without separator, and not `.`.
    pub fn child(&self, name: &str) -> (r: FilePath)
        requires
            is_name(name@),
            name@ != current_name(),
        ensures
            r@ == self@.push(name@),
            sound(r@),
    {
        let mut parts = self.first_parts(self.parts.len());
        assert(self@.take(self@.len() as int) =~= self@);
        let last = name.to_owned();
        proof {
            use_type_invariant(self);
            lemma_views_push(parts@, last);
            lemma_neighbours_are_sound(self@, name@);
        }
        parts.push(last);
        FilePath { parts }
    }

    /// Tells whether the path starts at the root.
    pub fn is_rooted(&self) -> (r: bool)
        ensures
            r == is_rooted(self@),
    {
        self.parts.len() > 0 && is_text(&self.parts[0], '/')
    }

    /// The place that this path names when it is read in the directory
    /// `base`: the path itself where it starts at the root, the path behind
    /// `base` otherwise, with `..` resolved.
    pub fn placed_in(&self, base: &FilePath) -> (r: FilePath)
        ensures
            r@ == placed(self@, base@),
            sound(r@),
    {
        if self.is_rooted() {
            return normalize(self);
        }
        let mut parts = base.first_parts(base.parts.len());
        assert(base@.take(base@.len() as int) =~= base@);
        let start: usize = if self.parts.len() > 0 && is_text(&self.parts[0], '.') {
            1
        } else {
            0
        };
        let ghost tail = without_lead(self@);
        assert(tail =~= self@.skip(start as int));
        let mut i: usize = start;
        assert(base@ + tail.take(0) =~= base@);
        while i < self.parts.len()
            invariant
                start <= i <= self.parts.len(),
                tail == self@.skip(start as int),
                views(parts@) == base@ + tail.take(i - start),
            decreases self.parts.len() - i,
        {
            proof {
                lemma_views_push(parts@, self.parts@[i as int]);
                assert(tail.take(i + 1 - start) =~= tail.take(i - start).push(self@[i as int]));
                assert((base@ + tail.take(i - start)).push(self@[i as int]) =~= base@ + tail.take(
                    i + 1 - start,
                ));
            }
            parts.push(self.parts[i].clone());
            i += 1;
        }
        assert(tail.take(i - start) =~= tail);
        proof {
            use_type_invariant(self);
            use_type_invariant(base);
            lemma_behind_is_sound(base@, self@);
        }
        let joined = FilePath { parts };
        normalize(&joined)
    }

    /// Tells whether this path comes before `other` in the order of the
    /// dictionary, component by component.
    pub fn comes_before(&self, other: &FilePath) -> (r: bool)
        ensures
            r == path_before(self@, other@),
    {
        let mut i: usize = 0;
        assert(self@.skip(0) =~= self@ && other@.skip(0) =~= other@);
        while i < self.parts.len() && i < other.parts.len()
            invariant
                i <= self.parts.len(),
                i <= other.parts.len(),
                path_before(self@, other@) == path_before(
                    self@.skip(i as int),
                    other@.skip(i as int),
                ),
            decreases self.parts.len() - i,
        {
            proof {
                assert(self@.skip(i as int).drop_first() =~= self@.skip(i + 1));
                assert(other@.skip(i as int).drop_first() =~= other@.skip(i + 1));
                assert(self@.skip(i as int)[0] == self.parts@[i as int]@);
                assert(other@.skip(i as int)[0] == other.parts@[i as int]@);
            }
            if self.parts[i] != other.parts[i] {
                return comes_first(&self.parts[i], &other.parts[i]);
            }
            i += 1;
        }
        i < other.parts.len()
    }

    /// Tells whether this path is `base` or lies below it.
    pub fn is_within(&self, base: &FilePath) -> (r: bool)
        ensures
            r == within(self@, base@),
    {
        let m = base.parts.len();
        let n = self.parts.len();
        if m > n {
            return false;
        }
        let mut i: usize = 0;
        while i < m
            invariant
                i <= m <= n,
                m == base.parts.len(),
                n == self.parts.len(),
                forall|j: int| 0 <= j < i ==> self@[j] == base@[j],
            decreases m - i,
        {
            if self.parts[i] != base.parts[i] {
                assert(self@.take(m as int)[i as int] != base@[i as int]);
                return false;
            }
            i += 1;
        }
        assert(self@.take(m as int) =~= base@);
        let mut j: usize = m;
        while j < n
            invariant
                m <= j <= n,
                m == base.parts.len(),
                n == self.parts.len(),
                self@.take(m as int) == base@,
                forall|k: int| m <= k < j ==> #[trigger] self@[k] != root_name(),
            decreases n - j,
        {
            if is_text(&self.parts[j], '/') {
                assert(self@[j as int] == root_name());
                return false;
            }
            assert(self@[j as int] == self.parts@[j as int]@);
            j += 1;
        }
        true
    }
}

/// The path with each `..` resolved against what stands before it. The
/// disk is not asked: `a/../b` becomes `b` whatever `a` is, and a `..`
/// that has no name before it stays.
pub fn normalize(path: &FilePath) -> (r: FilePath)
    ensures
        r@ == collapse(path@),
        sound(r@),
{
    let mut out: Vec<String> = Vec::new();
    let mut i: usize = 0;
    assert(path@.take(0) =~= Seq::<Seq<char>>::empty());
    assert(views(out@) =~= Seq::<Seq<char>>::empty());
    while i < path.parts.len()
        invariant
            i <= path.parts.len(),
            views(out@) == collapse(path@.take(i as int)),
        decreases path.parts.len() - i,
    {
        let part = &path.parts[i];
        proof {
            assert(path@.take(i + 1).drop_last() =~= path@.take(i as int));
            assert(path@.take(i + 1).last() == part@);
        }
        if is_parent_name(part) {
            let ghost before = views(out@);
            while out.len() > 0 && is_text(&out[out.len() - 1], '.')
                invariant
                    climbed(before) == climbed(views(out@)),
                decreases out.len(),
            {
                proof {
                    lemma_views_drop_last(out@);
                }
                out.pop();
            }
            let n = out.len();
            if n > 0 && !is_text(&out[n - 1], '/') && !is_parent_name(&out[n - 1]) {
                proof {
                    lemma_views_drop_last(out@);
                }
                out.pop();
            } else {
                proof {
                    lemma_views_push(out@, *part);
                }
                out.push(part.clone());
            }
        } else {
            proof {
                lemma_views_push(out@, *part);
            }
            out.push(part.clone());
        }
        i += 1;
    }
    assert(path@.take(i as int) =~= path@);
    proof {
        use_type_invariant(path);
        lemma_collapse_keeps_sound(path@);
    }
    FilePath { parts: out }
}

} // verus!
