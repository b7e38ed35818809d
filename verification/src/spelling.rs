//! Paths and their texts: every path that is read from a text is written
//! back as a text that reads as the same path.

use crate::path::{
    climbed, collapse, components, current_name, is_rooted, kept, lead, name_of, named,
    parent_name, placed, rendered, root_name, within, without_lead,
};
use crate::text::{lemma_split_append, lemma_split_nonempty, lemma_split_push, split};
use vstd::prelude::*;

verus! {

/// A name: not empty, and without a separator in it.
pub open spec fn is_name(c: Seq<char>) -> bool {
    c.len() > 0 && !c.contains('/')
}

/// The component at `i` is where it may be: the root and `.` stand only at
/// the start, and everything else is a name.
pub open spec fn sound_at(p: Seq<Seq<char>>, i: int) -> bool {
    if p[i] == root_name() {
        i == 0
    } else {
        is_name(p[i]) && (p[i] == current_name() ==> i == 0)
    }
}

/// A path as reading a text gives it.
pub open spec fn sound(p: Seq<Seq<char>>) -> bool {
    forall|i: int| 0 <= i < p.len() ==> #[trigger] sound_at(p, i)
}

/// No piece of a split holds the separator.
pub proof fn lemma_pieces_are_plain(s: Seq<char>, sep: char)
    ensures
        forall|k: int|
            0 <= k < split(s, sep).len() ==> !(#[trigger] split(s, sep)[k]).contains(sep),
    decreases s.len(),
{
    let pieces = split(s, sep);
    if s.len() == 0 {
        assert(pieces =~= seq![Seq::<char>::empty()]);
    } else {
        lemma_pieces_are_plain(s.drop_last(), sep);
        lemma_split_nonempty(s.drop_last(), sep);
        let before = split(s.drop_last(), sep);
        assert forall|k: int| 0 <= k < pieces.len() implies !(#[trigger] pieces[k]).contains(
            sep,
        ) by {
            if k < before.len() - 1 {
                assert(pieces[k] == before[k]);
            } else if s.last() != sep && k == before.len() - 1 {
                let piece = before[k].push(s.last());
                assert(pieces[k] == piece);
                assert(!before[k].contains(sep));
                if piece.contains(sep) {
                    let i = choose|i: int| 0 <= i < piece.len() && piece[i] == sep;
                    assert(before[k][i] == sep);
                }
            } else if s.last() != sep {
            } else if k == before.len() - 1 {
                assert(pieces[k] == before[k]);
            } else {
                assert(pieces[k] =~= Seq::<char>::empty());
            }
        }
    }
}

/// The pieces that name something are names, none of them `.`.
pub proof fn lemma_named_are_names(pieces: Seq<Seq<char>>)
    requires
        forall|k: int| 0 <= k < pieces.len() ==> !(#[trigger] pieces[k]).contains('/'),
    ensures
        forall|i: int|
            0 <= i < named(pieces).len() ==> is_name(#[trigger] named(pieces)[i]) && named(
                pieces,
            )[i] != current_name(),
    decreases pieces.len(),
{
    if pieces.len() > 0 {
        let before = pieces.drop_last();
        assert forall|k: int| 0 <= k < before.len() implies !(#[trigger] before[k]).contains(
            '/',
        ) by {
            assert(before[k] == pieces[k]);
        }
        lemma_named_are_names(before);
        assert(!pieces[pieces.len() - 1].contains('/'));
        assert forall|i: int| 0 <= i < named(pieces).len() implies is_name(
            #[trigger] named(pieces)[i],
        ) && named(pieces)[i] != current_name() by {
            if i < named(before).len() {
                assert(named(pieces)[i] == named(before)[i]);
            }
        }
    }
}

/// Reading a text gives a sound path.
pub proof fn lemma_components_are_sound(s: Seq<char>)
    ensures
        sound(components(s)),
{
    let pieces = split(s, '/');
    lemma_split_nonempty(s, '/');
    lemma_pieces_are_plain(s, '/');
    let rest = pieces.drop_first();
    assert forall|k: int| 0 <= k < rest.len() implies !(#[trigger] rest[k]).contains('/') by {
        assert(rest[k] == pieces[k + 1]);
    }
    lemma_named_are_names(rest);
    let p = components(s);
    assert(root_name()[0] == '/');
    assert forall|i: int| 0 <= i < p.len() implies #[trigger] sound_at(p, i) by {
        if i < lead(s).len() {
            assert(p[i] == lead(s)[i]);
            assert(i == 0);
            if p[i] != root_name() {
                assert(p[i] == pieces[0]);
            }
        } else {
            let c = named(rest)[i - lead(s).len()];
            assert(p[i] == c);
            assert(is_name(c) && c != current_name());
            if c == root_name() {
                assert(c[0] == '/');
            }
            if lead(s).len() == 0 {
                assert(s.len() == 0);
                assert(pieces =~= seq![Seq::<char>::empty()]);
                assert(rest.len() == 0);
            }
        }
    }
}

/// One step up from a sound path is a sound path.
pub proof fn lemma_climbed_keeps_sound(p: Seq<Seq<char>>)
    requires
        sound(p),
    ensures
        sound(climbed(p)),
    decreases p.len(),
{
    lemma_neighbours_are_sound(p, parent_name());
    assert(parent_name()[0] == '.' && parent_name()[1] == '.');
    assert(root_name()[0] == '/');
    assert(!parent_name().contains('/'));
    if p.len() > 0 && p.last() == current_name() {
        lemma_climbed_keeps_sound(p.drop_last());
    }
}

/// Resolving `..` in a sound path gives a sound path.
pub proof fn lemma_collapse_keeps_sound(p: Seq<Seq<char>>)
    requires
        sound(p),
    ensures
        sound(collapse(p)),
    decreases p.len(),
{
    if p.len() > 0 {
        let q = p.drop_last();
        assert forall|i: int| 0 <= i < q.len() implies #[trigger] sound_at(q, i) by {
            assert(sound_at(p, i));
        }
        lemma_collapse_keeps_sound(q);
        let before = collapse(q);
        let after = collapse(p);
        assert(sound_at(p, p.len() - 1));
        if p.last() == parent_name() {
            lemma_climbed_keeps_sound(before);
        } else {
            assert forall|i: int| 0 <= i < after.len() implies #[trigger] sound_at(after, i) by {
                if i < before.len() {
                    assert(sound_at(before, i));
                    assert(after[i] == before[i]);
                } else {
                    assert(after[i] == p.last());
                    if p.len() == 1 {
                        assert(q.len() == 0);
                    }
                }
            }
        }
    }
}

/// A path that does not start at the root, put behind a sound path without
/// its leading `.`, gives a sound path.
pub proof fn lemma_behind_is_sound(base: Seq<Seq<char>>, p: Seq<Seq<char>>)
    requires
        sound(base),
        sound(p),
        !is_rooted(p),
    ensures
        sound(base + without_lead(p)),
{
    let tail = without_lead(p);
    let whole = base + tail;
    let skipped = p.len() - tail.len();
    assert(root_name()[0] == '/');
    assert forall|i: int| 0 <= i < whole.len() implies #[trigger] sound_at(whole, i) by {
        if i < base.len() {
            assert(sound_at(base, i));
            assert(whole[i] == base[i]);
        } else {
            let j = i - base.len();
            assert(whole[i] == tail[j]);
            assert(tail[j] == p[j + skipped]);
            assert(sound_at(p, j + skipped));
        }
    }
}

/// A sound path without its last component is sound, and so is one with a
/// name put behind it.
pub proof fn lemma_neighbours_are_sound(p: Seq<Seq<char>>, name: Seq<char>)
    requires
        sound(p),
    ensures
        p.len() > 0 ==> sound(p.drop_last()),
        is_name(name) && name != current_name() ==> sound(p.push(name)),
{
    if p.len() > 0 {
        let q = p.drop_last();
        assert forall|i: int| 0 <= i < q.len() implies #[trigger] sound_at(q, i) by {
            assert(sound_at(p, i));
        }
    }
    if is_name(name) && name != current_name() {
        let q = p.push(name);
        assert(root_name()[0] == '/');
        assert forall|i: int| 0 <= i < q.len() implies #[trigger] sound_at(q, i) by {
            if i < p.len() {
                assert(sound_at(p, i));
            }
        }
    }
}

/// Where every piece names something, all pieces are kept.
pub proof fn lemma_named_keeps_names(pieces: Seq<Seq<char>>)
    requires
        forall|k: int| 0 <= k < pieces.len() ==> kept(#[trigger] pieces[k]),
    ensures
        named(pieces) == pieces,
    decreases pieces.len(),
{
    if pieces.len() > 0 {
        let before = pieces.drop_last();
        assert forall|k: int| 0 <= k < before.len() implies kept(#[trigger] before[k]) by {
            assert(before[k] == pieces[k]);
        }
        lemma_named_keeps_names(before);
        assert(kept(pieces[pieces.len() - 1]));
        assert(before.push(pieces.last()) =~= pieces);
    } else {
        assert(named(pieces) =~= pieces);
    }
}

/// The pieces of the text of a sound path: its components, with an empty
/// piece in front of a root, and one more behind a root that stands alone.
pub open spec fn pieces_of(p: Seq<Seq<char>>) -> Seq<Seq<char>> {
    if p[0] != root_name() {
        p
    } else if p.len() == 1 {
        seq![Seq::<char>::empty(), Seq::<char>::empty()]
    } else {
        seq![Seq::<char>::empty()] + p.drop_first()
    }
}

/// How the text of a sound path splits.
pub proof fn lemma_rendered_splits(p: Seq<Seq<char>>)
    requires
        sound(p),
        p.len() > 0,
    ensures
        split(rendered(p), '/') == pieces_of(p),
        rendered(p).len() > 0,
        rendered(p).last() == '/' <==> p.len() == 1 && p[0] == root_name(),
    decreases p.len(),
{
    let none = Seq::<char>::empty();
    let c = p.last();
    assert(sound_at(p, p.len() - 1));
    assert(split(none, '/') =~= seq![none]);
    assert(root_name()[0] == '/');
    if p.len() == 1 {
        assert(p.drop_last() =~= Seq::<Seq<char>>::empty());
        assert(rendered(p.drop_last()) =~= none);
        assert(p[0] == c);
        if c == root_name() {
            assert(rendered(p) == c);
            assert(c =~= none.push('/'));
            lemma_split_push(none, '/', '/');
            assert(split(rendered(p), '/') =~= pieces_of(p));
        } else {
            assert(rendered(p) == none + c);
            assert(rendered(p) =~= c);
            lemma_split_append(none, c, '/');
            assert(none + c =~= c);
            assert(split(c, '/') =~= seq![c]);
            assert(seq![c] =~= p);
            assert(c[c.len() - 1] != '/');
        }
    } else {
        let q = p.drop_last();
        assert forall|i: int| 0 <= i < q.len() implies #[trigger] sound_at(q, i) by {
            assert(sound_at(p, i));
        }
        lemma_rendered_splits(q);
        let before = rendered(q);
        assert(c != root_name());
        assert(q[0] == p[0]);
        assert(c[c.len() - 1] != '/');
        if before.last() == '/' {
            assert(q.len() == 1 && q[0] == root_name());
            assert(rendered(p) == before + c);
            lemma_split_append(before, c, '/');
            let pieces = split(before, '/');
            assert(pieces == seq![none, none]);
            assert(pieces.drop_last().push(pieces.last() + c) =~= seq![none, c]);
            assert(p.drop_first() =~= seq![c]);
            assert(seq![none] + seq![c] =~= seq![none, c]);
        } else {
            assert(rendered(p) == before.push('/') + c);
            lemma_split_push(before, '/', '/');
            lemma_split_append(before.push('/'), c, '/');
            let pieces = split(before, '/').push(none);
            assert(pieces.drop_last() =~= split(before, '/'));
            assert(none + c =~= c);
            assert(split(rendered(p), '/') == pieces_of(q).push(c));
            if p[0] != root_name() {
                assert(q.push(c) =~= p);
            } else {
                assert(q.len() > 1);
                assert((seq![none] + q.drop_first()).push(c) =~= seq![none] + p.drop_first());
            }
        }
        assert((before + c).last() == c.last());
        assert((before.push('/') + c).last() == c.last());
    }
}

/// The text of a sound path reads as that path.
pub proof fn lemma_text_reads_back(p: Seq<Seq<char>>)
    requires
        sound(p),
    ensures
        components(rendered(p)) == p,
{
    let none = Seq::<char>::empty();
    if p.len() == 0 {
        assert(rendered(p) =~= none);
        assert(split(none, '/') =~= seq![none]);
        assert(split(none, '/').drop_first() =~= Seq::<Seq<char>>::empty());
        assert(components(none) =~= p);
    } else {
        lemma_rendered_splits(p);
        let pieces = pieces_of(p);
        let rest = p.drop_first();
        assert(root_name()[0] == '/');
        assert forall|k: int| 0 <= k < rest.len() implies kept(#[trigger] rest[k]) by {
            assert(sound_at(p, k + 1));
            assert(rest[k] == p[k + 1]);
        }
        lemma_named_keeps_names(rest);
        assert(sound_at(p, 0));
        if p[0] != root_name() {
            assert(pieces.drop_first() =~= rest);
            assert(seq![p[0]] + rest =~= p);
        } else if p.len() == 1 {
            assert(pieces.drop_first() =~= seq![none]);
            assert(named(seq![none]) =~= Seq::<Seq<char>>::empty()) by {
                assert(seq![none].drop_last() =~= Seq::<Seq<char>>::empty());
            }
            assert(seq![root_name()] + Seq::<Seq<char>>::empty() =~= p);
        } else {
            assert(pieces.drop_first() =~= rest);
            assert(seq![root_name()] + rest =~= p);
        }
    }
}

/// A `..` behind the path stays: no name stands at the end of the path,
/// and no `.`.
pub open spec fn holds_back(p: Seq<Seq<char>>) -> bool {
    name_of(p) is None && !(p.len() > 0 && p.last() == current_name())
}

/// Every `..` of the path stands where it stays: at the start, behind the
/// root, or behind another `..`.
pub open spec fn resolved(p: Seq<Seq<char>>) -> bool {
    forall|i: int| 0 <= i < p.len() && #[trigger] p[i] == parent_name() ==> holds_back(p.take(i))
}

/// The start of a resolved path is resolved.
pub proof fn lemma_resolved_start(p: Seq<Seq<char>>, n: int)
    requires
        resolved(p),
        0 <= n <= p.len(),
    ensures
        resolved(p.take(n)),
{
    let q = p.take(n);
    assert forall|i: int| 0 <= i < q.len() && #[trigger] q[i] == parent_name() implies holds_back(
        q.take(i),
    ) by {
        assert(p[i] == q[i]);
        assert(p.take(i) =~= q.take(i));
    }
}

/// One step up from a resolved path is a resolved path.
pub proof fn lemma_climbed_resolves(p: Seq<Seq<char>>)
    requires
        resolved(p),
    ensures
        resolved(climbed(p)),
    decreases p.len(),
{
    if p.len() > 0 {
        lemma_resolved_start(p, p.len() - 1);
        assert(p.take(p.len() - 1) =~= p.drop_last());
    }
    if p.len() > 0 && p.last() == current_name() {
        lemma_climbed_resolves(p.drop_last());
    } else if name_of(p) is None {
        let after = p.push(parent_name());
        assert forall|i: int|
            0 <= i < after.len() && #[trigger] after[i] == parent_name() implies holds_back(
            after.take(i),
        ) by {
            if i < p.len() {
                assert(after[i] == p[i]);
                assert(after.take(i) =~= p.take(i));
            } else {
                assert(after.take(i) =~= p);
            }
        }
    }
}

/// Resolving `..` leaves nothing to resolve.
pub proof fn lemma_collapse_resolves(p: Seq<Seq<char>>)
    ensures
        resolved(collapse(p)),
    decreases p.len(),
{
    if p.len() > 0 {
        let before = collapse(p.drop_last());
        let after = collapse(p);
        lemma_collapse_resolves(p.drop_last());
        if p.last() == parent_name() {
            lemma_climbed_resolves(before);
        } else {
            assert forall|i: int|
                0 <= i < after.len() && #[trigger] after[i] == parent_name() implies holds_back(
                after.take(i),
            ) by {
                assert(after[i] == before[i]);
                assert(after.take(i) =~= before.take(i));
            }
        }
    }
}

/// Where nothing is left to resolve, resolving changes nothing.
pub proof fn lemma_resolved_stays(p: Seq<Seq<char>>)
    requires
        resolved(p),
    ensures
        collapse(p) == p,
    decreases p.len(),
{
    if p.len() > 0 {
        let q = p.drop_last();
        lemma_resolved_start(p, p.len() - 1);
        assert(p.take(p.len() - 1) =~= q);
        lemma_resolved_stays(q);
        assert(p[p.len() - 1] == p.last());
        assert(q.push(p.last()) =~= p);
    }
}

/// Resolving `..` twice is resolving it once.
pub proof fn lemma_collapse_once_is_enough(p: Seq<Seq<char>>)
    ensures
        collapse(collapse(p)) == collapse(p),
{
    lemma_collapse_resolves(p);
    lemma_resolved_stays(collapse(p));
}

/// Every path lies within itself.
pub proof fn lemma_within_itself(a: Seq<Seq<char>>)
    ensures
        within(a, a),
{
    assert(a.take(a.len() as int) =~= a);
}

/// What lies within a path lies within everything that this path lies
/// within.
pub proof fn lemma_within_goes_on(a: Seq<Seq<char>>, b: Seq<Seq<char>>, c: Seq<Seq<char>>)
    requires
        within(a, b),
        within(b, c),
    ensures
        within(a, c),
{
    assert(a.take(c.len() as int) =~= b.take(c.len() as int));
    assert forall|j: int| c.len() <= j < a.len() implies #[trigger] a[j] != root_name() by {
        if j < b.len() {
            assert(a[j] == a.take(b.len() as int)[j]);
            assert(b[j] != root_name());
        }
    }
}

/// Two paths that lie within one another are the same path.
pub proof fn lemma_within_both_ways(a: Seq<Seq<char>>, b: Seq<Seq<char>>)
    requires
        within(a, b),
        within(b, a),
    ensures
        a == b,
{
    assert(a.take(a.len() as int) =~= a);
}

/// A text without separator reads as the path of one component, the text
/// itself, and as the empty path where it is empty; and resolving `..`
/// leaves that path as it is.
pub proof fn lemma_bare_text_is_one_component(s: Seq<char>)
    requires
        !s.contains('/'),
    ensures
        components(s) == if s.len() > 0 {
            seq![s]
        } else {
            Seq::<Seq<char>>::empty()
        },
        collapse(components(s)) == components(s),
{
    let none = Seq::<char>::empty();
    lemma_split_append(none, s, '/');
    assert(none + s =~= s);
    assert(split(none, '/') =~= seq![none]);
    assert(split(s, '/') =~= seq![s]);
    assert(split(s, '/').drop_first() =~= Seq::<Seq<char>>::empty());
    if s.len() > 0 {
        assert(components(s) =~= seq![s]);
        let one = seq![s];
        let nothing = Seq::<Seq<char>>::empty();
        assert(one.drop_last() =~= nothing);
        assert(collapse(one.drop_last()) =~= nothing);
        assert(one.last() == s);
        assert(climbed(nothing) =~= nothing.push(parent_name()));
        assert(nothing.push(s) =~= one);
        assert(collapse(one) =~= one);
    } else {
        assert(components(s) =~= Seq::<Seq<char>>::empty());
    }
}

/// The place of an entry is the place of its directory with the entry's
/// name behind it.
pub proof fn lemma_placed_with_name(p: Seq<Seq<char>>, base: Seq<Seq<char>>, name: Seq<char>)
    requires
        name_of(seq![name]) is Some,
    ensures
        placed(p.push(name), base) == placed(p, base).push(name),
{
    let q = p.push(name);
    assert(q.drop_last() =~= p);
    assert(seq![name].last() == name);
    if p.len() == 0 {
        assert(q[0] == name);
        assert(without_lead(q) =~= without_lead(p).push(name));
    } else {
        assert(q[0] == p[0]);
        assert(without_lead(q) =~= without_lead(p).push(name));
    }
    let joined = base + without_lead(p);
    assert(base + without_lead(q) =~= joined.push(name));
    assert(joined.push(name).drop_last() =~= joined);
}

} // verus!
