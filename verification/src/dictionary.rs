//! The order of the dictionary on texts and on paths is a strict total
//! order.

use crate::path::{path_before, text_before};
use vstd::prelude::*;

verus! {

/// Of two texts at most one comes before the other, and no text comes
/// before itself.
pub proof fn lemma_text_order_is_one_way(a: Seq<char>, b: Seq<char>)
    ensures
        text_before(a, b) ==> !text_before(b, a),
    decreases a.len(),
{
    if a.len() > 0 && b.len() > 0 && a[0] == b[0] {
        lemma_text_order_is_one_way(a.drop_first(), b.drop_first());
    }
}

/// Of two different texts one comes before the other.
pub proof fn lemma_text_order_is_total(a: Seq<char>, b: Seq<char>)
    requires
        a != b,
    ensures
        text_before(a, b) || text_before(b, a),
    decreases a.len(),
{
    if a.len() > 0 && b.len() > 0 && a[0] == b[0] {
        if a.drop_first() == b.drop_first() {
            assert(a =~= seq![a[0]] + a.drop_first());
            assert(b =~= seq![b[0]] + b.drop_first());
        }
        lemma_text_order_is_total(a.drop_first(), b.drop_first());
    } else if a.len() == 0 && b.len() == 0 {
        assert(a =~= b);
    }
}

/// What comes before a text comes before everything behind that text.
pub proof fn lemma_text_order_goes_on(a: Seq<char>, b: Seq<char>, c: Seq<char>)
    requires
        text_before(a, b),
        text_before(b, c),
    ensures
        text_before(a, c),
    decreases a.len(),
{
    if a.len() > 0 && b.len() > 0 && c.len() > 0 && a[0] == b[0] && b[0] == c[0] {
        lemma_text_order_goes_on(a.drop_first(), b.drop_first(), c.drop_first());
    }
}

/// Of two paths at most one comes before the other.
pub proof fn lemma_path_order_is_one_way(a: Seq<Seq<char>>, b: Seq<Seq<char>>)
    ensures
        path_before(a, b) ==> !path_before(b, a),
    decreases a.len(),
{
    if a.len() > 0 && b.len() > 0 {
        if a[0] == b[0] {
            lemma_path_order_is_one_way(a.drop_first(), b.drop_first());
        } else {
            lemma_text_order_is_one_way(a[0], b[0]);
        }
    }
}

/// Of two different paths one comes before the other.
pub proof fn lemma_path_order_is_total(a: Seq<Seq<char>>, b: Seq<Seq<char>>)
    requires
        a != b,
    ensures
        path_before(a, b) || path_before(b, a),
    decreases a.len(),
{
    if a.len() > 0 && b.len() > 0 {
        if a[0] == b[0] {
            if a.drop_first() == b.drop_first() {
                assert(a =~= seq![a[0]] + a.drop_first());
                assert(b =~= seq![b[0]] + b.drop_first());
            }
            lemma_path_order_is_total(a.drop_first(), b.drop_first());
        } else {
            lemma_text_order_is_total(a[0], b[0]);
        }
    } else if a.len() == 0 && b.len() == 0 {
        assert(a =~= b);
    }
}

/// Where `b` does not come before `a`, and `c` not before `b`, `c` does
/// not come before `a`.
pub proof fn lemma_path_order_keeps_on(a: Seq<Seq<char>>, b: Seq<Seq<char>>, c: Seq<Seq<char>>)
    requires
        !path_before(b, a),
        !path_before(c, b),
    ensures
        !path_before(c, a),
    decreases a.len(),
{
    if a.len() > 0 && b.len() > 0 && c.len() > 0 {
        lemma_text_order_is_one_way(c[0], c[0]);
        if b[0] != a[0] {
            lemma_text_order_is_total(a[0], b[0]);
            if c[0] != a[0] && text_before(c[0], a[0]) {
                lemma_text_order_goes_on(c[0], a[0], b[0]);
                lemma_text_order_is_one_way(c[0], b[0]);
            }
        } else if c[0] == a[0] {
            lemma_path_order_keeps_on(a.drop_first(), b.drop_first(), c.drop_first());
        }
    }
}

} // verus!
