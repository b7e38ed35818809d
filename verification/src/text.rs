//! Plain operations on character sequences: trimming and splitting.
//!
//! Every executable function here is stated against a recursive definition
//! over `Seq<char>`, so that the callers' contracts can speak of text without
//! speaking of indices.

use vstd::prelude::*;

verus! {

/// `String::push` appends one character to the end of the string.
pub assume_specification[ String::push ](s: &mut String, ch: char)
    ensures
        final(s)@ == old(s)@.push(ch),
;

/// The two characters that are taken for a path separator at the end of a
/// name or of an edited line, whatever the platform.
pub open spec fn is_separator(c: char) -> bool {
    c == '/' || c == '\\'
}

/// The characters that Unicode counts as white space.
pub open spec fn is_space(c: char) -> bool {
    ||| '\u{9}' <= c <= '\u{d}'
    ||| c == ' '
    ||| c == '\u{85}'
    ||| c == '\u{a0}'
    ||| c == '\u{1680}'
    ||| '\u{2000}' <= c <= '\u{200a}'
    ||| c == '\u{2028}'
    ||| c == '\u{2029}'
    ||| c == '\u{202f}'
    ||| c == '\u{205f}'
    ||| c == '\u{3000}'
}

/// `s` without its longest prefix of characters that satisfy `p`.
pub open spec fn trim_start_of(s: Seq<char>, p: spec_fn(char) -> bool) -> Seq<char>
    decreases s.len(),
{
    if s.len() > 0 && p(s[0]) {
        trim_start_of(s.drop_first(), p)
    } else {
        s
    }
}

/// `s` without its longest suffix of characters that satisfy `p`.
pub open spec fn trim_end_of(s: Seq<char>, p: spec_fn(char) -> bool) -> Seq<char>
    decreases s.len(),
{
    if s.len() > 0 && p(s.last()) {
        trim_end_of(s.drop_last(), p)
    } else {
        s
    }
}

/// `s` without surrounding white space.
pub open spec fn trimmed(s: Seq<char>) -> Seq<char> {
    trim_end_of(trim_start_of(s, |c: char| is_space(c)), |c: char| is_space(c))
}

/// `s` without trailing separators.
pub open spec fn without_trailing_separators(s: Seq<char>) -> Seq<char> {
    trim_end_of(s, |c: char| is_separator(c))
}

/// The pieces of `s` between occurrences of `sep`. There is always at least
/// one piece; a piece may be empty.
pub open spec fn split(s: Seq<char>, sep: char) -> Seq<Seq<char>>
    decreases s.len(),
{
    if s.len() == 0 {
        seq![Seq::<char>::empty()]
    } else {
        let before = split(s.drop_last(), sep);
        if s.last() == sep {
            before.push(Seq::<char>::empty())
        } else {
            before.drop_last().push(before.last().push(s.last()))
        }
    }
}

/// The views of the items of a sequence.
pub open spec fn views<T: View>(v: Seq<T>) -> Seq<T::V> {
    Seq::new(v.len(), |i: int| v[i]@)
}

/// The views of a sequence with one more item.
pub proof fn lemma_views_push<T: View>(v: Seq<T>, x: T)
    ensures
        views(v.push(x)) == views(v).push(x@),
{
    assert(views(v.push(x)) =~= views(v).push(x@));
}

/// The views of a sequence without its last item.
pub proof fn lemma_views_drop_last<T: View>(v: Seq<T>)
    requires
        v.len() > 0,
    ensures
        views(v.drop_last()) == views(v).drop_last(),
{
    assert(views(v.drop_last()) =~= views(v).drop_last());
}

/// Trimming at the start leaves the part behind the first character that
/// does not satisfy `p`.
pub proof fn lemma_trim_start_is_skip(s: Seq<char>, p: spec_fn(char) -> bool, k: int)
    requires
        0 <= k <= s.len(),
        forall|i: int| 0 <= i < k ==> p(#[trigger] s[i]),
        k < s.len() ==> !p(s[k]),
    ensures
        trim_start_of(s, p) == s.skip(k),
    decreases k,
{
    if k == 0 {
        assert(s.skip(0) =~= s);
    } else {
        let rest = s.drop_first();
        assert forall|i: int| 0 <= i < k - 1 implies p(#[trigger] rest[i]) by {
            assert(rest[i] == s[i + 1]);
        }
        lemma_trim_start_is_skip(rest, p, k - 1);
        assert(rest.skip(k - 1) =~= s.skip(k));
    }
}

/// Trimming at the end leaves the part up to the last character that does
/// not satisfy `p`.
pub proof fn lemma_trim_end_is_take(s: Seq<char>, p: spec_fn(char) -> bool, k: int)
    requires
        0 <= k <= s.len(),
        forall|i: int| k <= i < s.len() ==> p(#[trigger] s[i]),
        k > 0 ==> !p(s[k - 1]),
    ensures
        trim_end_of(s, p) == s.take(k),
    decreases s.len() - k,
{
    if k == s.len() {
        assert(s.take(k) =~= s);
    } else {
        let rest = s.drop_last();
        lemma_trim_end_is_take(rest, p, k);
        assert(rest.take(k) =~= s.take(k));
    }
}

/// One more character either opens a new piece or lengthens the last one.
pub proof fn lemma_split_step(s: Seq<char>, sep: char, i: int)
    requires
        0 <= i < s.len(),
    ensures
        split(s.take(i + 1), sep) == if s[i] == sep {
            split(s.take(i), sep).push(Seq::<char>::empty())
        } else {
            split(s.take(i), sep).drop_last().push(split(s.take(i), sep).last().push(s[i]))
        },
        split(s.take(i), sep).len() > 0,
{
    assert(s.take(i + 1).drop_last() =~= s.take(i));
    lemma_split_nonempty(s.take(i), sep);
}

/// One more character at the end either opens a new piece or lengthens the
/// last one.
pub proof fn lemma_split_push(s: Seq<char>, sep: char, c: char)
    ensures
        split(s.push(c), sep) == if c == sep {
            split(s, sep).push(Seq::<char>::empty())
        } else {
            split(s, sep).drop_last().push(split(s, sep).last().push(c))
        },
{
    assert(s.push(c).drop_last() =~= s);
}

/// Text without separator, put behind, lengthens the last piece.
pub proof fn lemma_split_append(a: Seq<char>, b: Seq<char>, sep: char)
    requires
        !b.contains(sep),
    ensures
        split(a + b, sep) == split(a, sep).drop_last().push(split(a, sep).last() + b),
    decreases b.len(),
{
    lemma_split_nonempty(a, sep);
    let pieces = split(a, sep);
    if b.len() == 0 {
        assert(a + b =~= a);
        assert(pieces.last() + b =~= pieces.last());
        assert(pieces.drop_last().push(pieces.last()) =~= pieces);
    } else {
        let front = b.drop_last();
        let c = b.last();
        assert(b[b.len() - 1] == c);
        assert forall|i: int| 0 <= i < front.len() implies front[i] != sep by {
            assert(front[i] == b[i]);
        }
        lemma_split_append(a, front, sep);
        assert(a + b =~= (a + front).push(c));
        lemma_split_push(a + front, sep, c);
        assert((pieces.last() + front).push(c) =~= pieces.last() + b);
        assert(pieces.drop_last().push(pieces.last() + front).drop_last() =~= pieces.drop_last());
    }
}

/// Text that neither begins nor ends with white space is its own trimmed
/// form.
pub proof fn lemma_trimmed_is_itself(t: Seq<char>)
    requires
        t.len() > 0,
        !is_space(t[0]),
        !is_space(t.last()),
    ensures
        trimmed(t) == t,
{
    let sp = |c: char| is_space(c);
    lemma_trim_start_is_skip(t, sp, 0);
    assert(t.skip(0) =~= t);
    lemma_trim_end_is_take(t, sp, t.len() as int);
    assert(t.take(t.len() as int) =~= t);
}

/// A split has at least one piece.
pub proof fn lemma_split_nonempty(s: Seq<char>, sep: char)
    ensures
        split(s, sep).len() > 0,
    decreases s.len(),
{
    if s.len() > 0 {
        lemma_split_nonempty(s.drop_last(), sep);
    }
}

/// The characters of a string, in order.
pub fn chars_of(s: &str) -> (v: Vec<char>)
    ensures
        v@ == s@,
{
    let mut v: Vec<char> = Vec::new();
    for c in it: s.chars()
        invariant
            it.seq() == s@,
            v@ == s@.take(it.index()),
    {
        v.push(c);
    }
    v
}

/// The string made of the characters `v[from..to]`.
pub(crate) fn string_of(v: &Vec<char>, from: usize, to: usize) -> (s: String)
    requires
        from <= to <= v.len(),
    ensures
        s@ == v@.subrange(from as int, to as int),
{
    let mut s = String::new();
    let mut i: usize = from;
    while i < to
        invariant
            from <= i <= to <= v.len(),
            s@ == v@.subrange(from as int, i as int),
        decreases to - i,
    {
        s.push(v[i]);
        i += 1;
        assert(v@.subrange(from as int, i as int) =~= v@.subrange(from as int, i - 1).push(
            v@[i - 1],
        ));
    }
    s
}

/// Tells whether `c` is one of the two separator characters.
pub(crate) fn separator(c: char) -> (r: bool)
    ensures
        r == is_separator(c),
{
    c == '/' || c == '\\'
}

/// Tells whether `c` is white space.
pub(crate) fn space(c: char) -> (r: bool)
    ensures
        r == is_space(c),
{
    ('\u{9}' <= c && c <= '\u{d}') || c == ' ' || c == '\u{85}' || c == '\u{a0}' || c
        == '\u{1680}' || ('\u{2000}' <= c && c <= '\u{200a}') || c == '\u{2028}' || c
        == '\u{2029}' || c == '\u{202f}' || c == '\u{205f}' || c == '\u{3000}'
}

/// The bounds of `v[from..to]` without surrounding white space.
pub(crate) fn trim_range(v: &Vec<char>, from: usize, to: usize) -> (r: (usize, usize))
    requires
        from <= to <= v.len(),
    ensures
        from <= r.0 <= r.1 <= to,
        v@.subrange(r.0 as int, r.1 as int) == trimmed(v@.subrange(from as int, to as int)),
{
    let ghost whole = v@.subrange(from as int, to as int);
    let ghost sp = |c: char| is_space(c);
    let mut a: usize = from;
    while a < to && space(v[a])
        invariant
            from <= a <= to <= v.len(),
            forall|i: int| from <= i < a ==> is_space(#[trigger] v@[i]),
        decreases to - a,
    {
        a += 1;
    }
    let mut b: usize = to;
    while b > a && space(v[b - 1])
        invariant
            a <= b <= to <= v.len(),
            forall|i: int| b <= i < to ==> is_space(#[trigger] v@[i]),
        decreases b,
    {
        b -= 1;
    }
    proof {
        assert forall|i: int| 0 <= i < a - from implies sp(#[trigger] whole[i]) by {
            assert(whole[i] == v@[from + i]);
        }
        lemma_trim_start_is_skip(whole, sp, a - from);
        let rest = whole.skip(a - from);
        assert(rest =~= v@.subrange(a as int, to as int));
        assert forall|i: int| b - a <= i < rest.len() implies sp(#[trigger] rest[i]) by {
            assert(rest[i] == v@[a + i]);
        }
        lemma_trim_end_is_take(rest, sp, b - a);
        assert(rest.take(b - a) =~= v@.subrange(a as int, b as int));
    }
    (a, b)
}

/// The end of `v[from..to]` without trailing separators.
pub(crate) fn trim_separators_end(v: &Vec<char>, from: usize, to: usize) -> (end: usize)
    requires
        from <= to <= v.len(),
    ensures
        from <= end <= to,
        v@.subrange(from as int, end as int) == without_trailing_separators(
            v@.subrange(from as int, to as int),
        ),
{
    let ghost whole = v@.subrange(from as int, to as int);
    let ghost sep = |c: char| is_separator(c);
    let mut b: usize = to;
    while b > from && separator(v[b - 1])
        invariant
            from <= b <= to <= v.len(),
            forall|i: int| b <= i < to ==> is_separator(#[trigger] v@[i]),
        decreases b,
    {
        b -= 1;
    }
    proof {
        assert forall|i: int| b - from <= i < whole.len() implies sep(#[trigger] whole[i]) by {
            assert(whole[i] == v@[from + i]);
        }
        lemma_trim_end_is_take(whole, sep, b - from);
        assert(whole.take(b - from) =~= v@.subrange(from as int, b as int));
    }
    b
}

/// Where the pieces of `v` between occurrences of `sep` begin and end.
pub(crate) fn split_ranges(v: &Vec<char>, sep: char) -> (r: Vec<(usize, usize)>)
    ensures
        r@.len() == split(v@, sep).len(),
        forall|k: int|
            0 <= k < r@.len() ==> {
                &&& (#[trigger] r@[k]).0 <= r@[k].1 <= v@.len()
                &&& split(v@, sep)[k] == v@.subrange(r@[k].0 as int, r@[k].1 as int)
            },
{
    let mut r: Vec<(usize, usize)> = Vec::new();
    let mut start: usize = 0;
    let mut i: usize = 0;
    proof {
        assert(v@.take(0) =~= Seq::<char>::empty());
        assert(v@.subrange(0, 0) =~= Seq::<char>::empty());
        assert(split(v@.take(0), sep) =~= seq![v@.subrange(0, 0)]);
    }
    while i < v.len()
        invariant
            start <= i <= v.len(),
            split(v@.take(i as int), sep).len() == r@.len() + 1,
            split(v@.take(i as int), sep).last() == v@.subrange(start as int, i as int),
            forall|k: int|
                0 <= k < r@.len() ==> {
                    &&& (#[trigger] r@[k]).0 <= r@[k].1 <= v@.len()
                    &&& split(v@.take(i as int), sep)[k] == v@.subrange(
                        r@[k].0 as int,
                        r@[k].1 as int,
                    )
                },
        decreases v.len() - i,
    {
        proof {
            lemma_split_step(v@, sep, i as int);
        }
        let ghost before = split(v@.take(i as int), sep);
        if v[i] == sep {
            r.push((start, i));
            start = i + 1;
            proof {
                assert(v@.subrange(start as int, i + 1) =~= Seq::<char>::empty());
            }
        } else {
            proof {
                assert(v@.subrange(start as int, i + 1) =~= v@.subrange(
                    start as int,
                    i as int,
                ).push(v@[i as int]));
            }
        }
        i += 1;
    }
    r.push((start, i));
    proof {
        assert(v@.take(i as int) =~= v@);
    }
    r
}

} // verus!
