//! The words of an issue or a file, as the issue mapping compares them.
use vstd::prelude::*;
use crate::mapper::CodeMapper;
use crate::text::{
    CharClass, class_fn, split_by, split_exec, chars_of, string_of, str_views, char_views,
    lemma_split_by_join,
};
use crate::unicode::{lower_text, to_lowercase};
use crate::table::find_key;
use crate::text::contains_string;

verus! {

/// A piece is kept as a token when its UTF-8 encoding is longer than one
/// byte: it has two characters or more, or one outside ASCII.
pub open spec fn kept_piece(p: Seq<char>) -> bool {
    p.len() > 1 || (p.len() == 1 && (p[0] as u32) >= 0x80)
}

/// The tokens of `text`: the pieces between non-alphanumeric characters
/// that take more than one byte, lowercased (on ASCII pieces, `A`..`Z`
/// become `a`..`z`).
pub open spec fn tokens_of(text: Seq<char>) -> Seq<Seq<char>> {
    split_by(text, class_fn(CharClass::NonAlphanumeric)).filter(|p: Seq<char>| kept_piece(p)).map_values(
        |p: Seq<char>| lower_text(p),
    )
}

/// The tokens of two texts joined by a space are the tokens of the first
/// followed by those of the second (an issue's title and body are read so).
pub proof fn law_tokens_of_joined_text(a: Seq<char>, b: Seq<char>)
    ensures
        tokens_of(a + seq![' '] + b) == tokens_of(a) + tokens_of(b),
{
    let sep = class_fn(CharClass::NonAlphanumeric);
    let f = |p: Seq<char>| kept_piece(p);
    let g = |p: Seq<char>| lower_text(p);
    assert(a + seq![' '] + b =~= a.push(' ') + b);
    assert(sep(' '));
    lemma_split_by_join(a, ' ', b, sep);
    let pa = split_by(a, sep);
    let pb = split_by(b, sep);
    Seq::<Seq<char>>::filter_distributes_over_add(pa, pb, f);
    assert((pa.filter(f) + pb.filter(f)).map_values(g) =~= pa.filter(f).map_values(g) + pb.filter(f).map_values(g));
}

impl CodeMapper {
    /// The tokens of `text`: its alphanumeric runs longer than one byte, lowercased.
    pub fn tokenize(text: &str) -> (r: Vec<String>)
        ensures
            str_views(r@) == tokens_of(text@),
    {
        let cs = chars_of(text);
        let pieces = split_exec(&cs, CharClass::NonAlphanumeric);
        let ghost pv = char_views(pieces@);
        let ghost f = |p: Seq<char>| kept_piece(p);
        let ghost g = |p: Seq<char>| lower_text(p);
        let mut r: Vec<String> = Vec::new();
        let mut i: usize = 0;
        assert(pv.take(0).filter(f).map_values(g) =~= Seq::<Seq<char>>::empty());
        while i < pieces.len()
            invariant
                pv == char_views(pieces@),
                pv == split_by(text@, class_fn(CharClass::NonAlphanumeric)),
                f == (|p: Seq<char>| kept_piece(p)),
                g == (|p: Seq<char>| lower_text(p)),
                i <= pieces@.len(),
                str_views(r@) == pv.take(i as int).filter(f).map_values(g),
            decreases pieces@.len() - i,
        {
            assert(pv[i as int] == pieces@[i as int]@);
            proof {
                reveal_with_fuel(Seq::filter, 1);
                assert(pv.take(i + 1).drop_last() =~= pv.take(i as int));
            }
            let p = &pieces[i];
            let longer_than_one_byte = p.len() > 1 || (p.len() == 1 && (p[0] as u32) >= 0x80);
            let piece = string_of(p);
            if longer_than_one_byte {
                let low = to_lowercase(piece.as_str());
                let ghost old_r = r@;
                r.push(low);
                assert(pv.take(i + 1).filter(f) == pv.take(i as int).filter(f).push(pv[i as int]));
                assert(pv.take(i + 1).filter(f).map_values(g) =~= pv.take(i as int).filter(f).map_values(g).push(
                    lower_text(pv[i as int]),
                ));
                assert(str_views(r@) =~= str_views(old_r).push(low@));
            } else {
                assert(!f(pv[i as int]));
                assert(pv.take(i + 1).filter(f) == pv.take(i as int).filter(f));
            }
            i += 1;
        }
        assert(pv.take(pieces@.len() as int) =~= pv);
        r
    }
}


// ------------------------------------------------------------------
// Term statistics for the cosine similarity of two token lists
// ------------------------------------------------------------------

/// The number of occurrences of `w` in `s`.
pub open spec fn occurrences(s: Seq<Seq<char>>, w: Seq<char>) -> nat
    decreases s.len(),
{
    if s.len() == 0 {
        0
    } else {
        occurrences(s.drop_last(), w) + if s.last() == w {
            1nat
        } else {
            0nat
        }
    }
}

/// `sum over the tokens x of a of occurrences(b, x)`: the dot product of the
/// term-frequency vectors of `a` and `b`.
pub open spec fn cross(a: Seq<Seq<char>>, b: Seq<Seq<char>>) -> nat
    decreases a.len(),
{
    if a.len() == 0 {
        0
    } else {
        cross(a.drop_last(), b) + occurrences(b, a.last())
    }
}

pub proof fn lemma_occurrences_bound(s: Seq<Seq<char>>, w: Seq<char>)
    ensures
        occurrences(s, w) <= s.len(),
        !s.contains(w) ==> occurrences(s, w) == 0,
    decreases s.len(),
{
    if s.len() > 0 {
        lemma_occurrences_bound(s.drop_last(), w);
        if !s.contains(w) {
            assert(s.last() != w) by {
                assert(s[s.len() - 1] == s.last());
            }
            assert(!s.drop_last().contains(w)) by {
                if s.drop_last().contains(w) {
                    let k = choose|k: int| 0 <= k < s.drop_last().len() && s.drop_last()[k] == w;
                    assert(s[k] == w);
                }
            }
        }
    }
}

pub proof fn lemma_occurrences_positive(s: Seq<Seq<char>>, w: Seq<char>)
    ensures
        occurrences(s, w) > 0 <==> s.contains(w),
    decreases s.len(),
{
    lemma_occurrences_bound(s, w);
    if s.len() > 0 {
        lemma_occurrences_positive(s.drop_last(), w);
        if s.contains(w) && s.last() != w {
            let k = choose|k: int| 0 <= k < s.len() && s[k] == w;
            assert(s.drop_last()[k] == w);
        }
        if s.drop_last().contains(w) {
            let k = choose|k: int| 0 <= k < s.drop_last().len() && s.drop_last()[k] == w;
            assert(s[k] == w);
        }
        assert(s[s.len() - 1] == s.last());
    }
}

pub proof fn lemma_cross_push(a: Seq<Seq<char>>, b: Seq<Seq<char>>, y: Seq<char>)
    ensures
        cross(a, b.push(y)) == cross(a, b) + occurrences(a, y),
    decreases a.len(),
{
    if a.len() > 0 {
        lemma_cross_push(a.drop_last(), b, y);
        assert(b.push(y).drop_last() =~= b);
    }
}

pub proof fn lemma_cross_empty(a: Seq<Seq<char>>)
    ensures
        cross(a, Seq::empty()) == 0,
    decreases a.len(),
{
    if a.len() > 0 {
        lemma_cross_empty(a.drop_last());
    }
}

/// The dot product of two term-frequency vectors does not depend on their
/// order: the cosine similarity is symmetric.
pub proof fn law_cross_symmetric(a: Seq<Seq<char>>, b: Seq<Seq<char>>)
    ensures
        cross(a, b) == cross(b, a),
    decreases b.len(),
{
    if b.len() > 0 {
        law_cross_symmetric(a, b.drop_last());
        lemma_cross_push(a, b.drop_last(), b.last());
        assert(b.drop_last().push(b.last()) =~= b);
    } else {
        lemma_cross_empty(a);
        assert(b =~= Seq::<Seq<char>>::empty());
    }
}

/// The dot product is zero exactly when the two token lists share no token:
/// the cosine similarity is zero exactly then (or when a list is empty).
pub proof fn law_cross_zero(a: Seq<Seq<char>>, b: Seq<Seq<char>>)
    ensures
        cross(a, b) == 0 <==> !exists|x: Seq<char>| a.contains(x) && b.contains(x),
    decreases a.len(),
{
    if a.len() > 0 {
        let a0 = a.drop_last();
        law_cross_zero(a0, b);
        lemma_occurrences_positive(b, a.last());
        assert(a.contains(a.last())) by {
            assert(a[a.len() - 1] == a.last());
        }
        if exists|x: Seq<char>| a.contains(x) && b.contains(x) {
            let x = choose|x: Seq<char>| a.contains(x) && b.contains(x);
            if x != a.last() {
                let k = choose|k: int| 0 <= k < a.len() && a[k] == x;
                assert(a0[k] == x);
                assert(a0.contains(x) && b.contains(x));
            }
        }
        if exists|x: Seq<char>| a0.contains(x) && b.contains(x) {
            let x = choose|x: Seq<char>| a0.contains(x) && b.contains(x);
            let k = choose|k: int| 0 <= k < a0.len() && a0[k] == x;
            assert(a[k] == x);
            assert(a.contains(x) && b.contains(x));
        }
    }
}

/// `occurrences` counts as a multiset does.
pub proof fn lemma_occurrences_multiset(s: Seq<Seq<char>>, w: Seq<char>)
    ensures
        occurrences(s, w) == s.to_multiset().count(w),
    decreases s.len(),
{
    broadcast use vstd::multiset::group_multiset_axioms;
    if s.len() == 0 {
        s.to_multiset_ensures();
        assert(!s.contains(w));
    } else {
        lemma_occurrences_multiset(s.drop_last(), w);
        vstd::seq_lib::to_multiset_build(s.drop_last(), s.last());
        assert(s.drop_last().push(s.last()) =~= s);
    }
}

/// The dot product depends only on how often each token occurs in `b`.
pub proof fn lemma_cross_by_counts(a: Seq<Seq<char>>, b: Seq<Seq<char>>, b2: Seq<Seq<char>>)
    requires
        forall|w: Seq<char>| occurrences(b, w) == occurrences(b2, w),
    ensures
        cross(a, b) == cross(a, b2),
    decreases a.len(),
{
    if a.len() > 0 {
        lemma_cross_by_counts(a.drop_last(), b, b2);
        assert(occurrences(b, a.last()) == occurrences(b2, a.last()));
    }
}

/// Reordering either token list leaves the dot product unchanged: the
/// cosine similarity does not depend on the order of the tokens.
pub proof fn law_cross_reorder(a: Seq<Seq<char>>, a2: Seq<Seq<char>>, b: Seq<Seq<char>>, b2: Seq<Seq<char>>)
    requires
        a.to_multiset() == a2.to_multiset(),
        b.to_multiset() == b2.to_multiset(),
    ensures
        cross(a, b) == cross(a2, b2),
{
    assert forall|w: Seq<char>| occurrences(b, w) == occurrences(b2, w) by {
        lemma_occurrences_multiset(b, w);
        lemma_occurrences_multiset(b2, w);
    }
    assert forall|w: Seq<char>| occurrences(a, w) == occurrences(a2, w) by {
        lemma_occurrences_multiset(a, w);
        lemma_occurrences_multiset(a2, w);
    }
    lemma_cross_by_counts(a, b, b2);
    law_cross_symmetric(a, b2);
    lemma_cross_by_counts(b2, a, a2);
    law_cross_symmetric(a2, b2);
}

/// The distinct tokens of `s`, in order of first occurrence.
pub open spec fn distinct_of(s: Seq<Seq<char>>) -> Seq<Seq<char>>
    decreases s.len(),
{
    if s.len() == 0 {
        Seq::empty()
    } else {
        let d = distinct_of(s.drop_last());
        if d.contains(s.last()) {
            d
        } else {
            d.push(s.last())
        }
    }
}

pub proof fn lemma_distinct_of(s: Seq<Seq<char>>)
    ensures
        distinct_of(s).no_duplicates(),
        forall|w: Seq<char>| #[trigger] distinct_of(s).contains(w) <==> s.contains(w),
    decreases s.len(),
{
    if s.len() > 0 {
        let s0 = s.drop_last();
        lemma_distinct_of(s0);
        let d = distinct_of(s0);
        assert forall|w: Seq<char>| #[trigger] s.contains(w) <==> (s0.contains(w) || w == s.last()) by {
            if s.contains(w) && w != s.last() {
                let k = choose|k: int| 0 <= k < s.len() && s[k] == w;
                assert(s0[k] == w);
            }
            if s0.contains(w) {
                let k = choose|k: int| 0 <= k < s0.len() && s0[k] == w;
                assert(s[k] == w);
            }
            assert(s[s.len() - 1] == s.last());
        }
        if !d.contains(s.last()) {
            let e = d.push(s.last());
            assert forall|w: Seq<char>| #[trigger] e.contains(w) <==> (d.contains(w) || w == s.last()) by {
                if e.contains(w) && w != s.last() {
                    let k = choose|k: int| 0 <= k < e.len() && e[k] == w;
                    assert(d[k] == w);
                }
                if d.contains(w) {
                    let k = choose|k: int| 0 <= k < d.len() && d[k] == w;
                    assert(e[k] == w);
                }
                assert(e[d.len() as int] == s.last());
            }
            assert forall|i: int, j: int| 0 <= i < e.len() && 0 <= j < e.len() && i != j implies e[i] != e[j] by {
                if i < d.len() && j < d.len() {
                    assert(e[i] == d[i] && e[j] == d[j]);
                } else if i < d.len() {
                    assert(e[i] == d[i]);
                    assert(d.contains(d[i]));
                } else if j < d.len() {
                    assert(e[j] == d[j]);
                    assert(d.contains(d[j]));
                }
            }
        }
    }
}

/// `sum over the terms w of d of occurrences(a, w) * occurrences(b, w)`.
pub open spec fn dot_over(d: Seq<Seq<char>>, a: Seq<Seq<char>>, b: Seq<Seq<char>>) -> nat
    decreases d.len(),
{
    if d.len() == 0 {
        0
    } else {
        dot_over(d.drop_last(), a, b) + occurrences(a, d.last()) * occurrences(b, d.last())
    }
}

pub proof fn lemma_dot_over_empty(d: Seq<Seq<char>>, b: Seq<Seq<char>>)
    ensures
        dot_over(d, Seq::empty(), b) == 0,
    decreases d.len(),
{
    if d.len() > 0 {
        lemma_dot_over_empty(d.drop_last(), b);
        assert(occurrences(Seq::<Seq<char>>::empty(), d.last()) == 0);
    }
}

pub proof fn lemma_dot_over_push(d: Seq<Seq<char>>, a: Seq<Seq<char>>, x: Seq<char>, b: Seq<Seq<char>>)
    requires
        d.no_duplicates(),
    ensures
        dot_over(d, a.push(x), b) == dot_over(d, a, b) + if d.contains(x) {
            occurrences(b, x)
        } else {
            0
        },
    decreases d.len(),
{
    if d.len() > 0 {
        let d0 = d.drop_last();
        let l = d.last();
        assert(d0.no_duplicates()) by {
            assert forall|i: int, j: int| 0 <= i < d0.len() && 0 <= j < d0.len() && i != j implies d0[i] != d0[j] by {
                assert(d0[i] == d[i] && d0[j] == d[j]);
            }
        }
        lemma_dot_over_push(d0, a, x, b);
        assert(a.push(x).drop_last() =~= a);
        let oa = occurrences(a, l);
        let ob = occurrences(b, l);
        if x == l {
            assert((oa + 1) * ob == oa * ob + ob) by (nonlinear_arith);
            assert(!d0.contains(x)) by {
                if d0.contains(x) {
                    let k = choose|k: int| 0 <= k < d0.len() && d0[k] == x;
                    assert(d[k] == d[d.len() - 1]);
                }
            }
            assert(d.contains(x)) by {
                assert(d[d.len() - 1] == x);
            }
        } else {
            assert forall|w: Seq<char>| #[trigger] d.contains(w) && w != l implies d0.contains(w) by {
                let k = choose|k: int| 0 <= k < d.len() && d[k] == w;
                assert(d0[k] == w);
            }
            assert forall|w: Seq<char>| #[trigger] d0.contains(w) implies d.contains(w) by {
                let k = choose|k: int| 0 <= k < d0.len() && d0[k] == w;
                assert(d[k] == w);
            }
        }
    }
}

/// Over a list of distinct terms that holds every token of `a`, the dot
/// product is the sum of the products of the two counts.
pub proof fn lemma_cross_as_dot(a: Seq<Seq<char>>, b: Seq<Seq<char>>, d: Seq<Seq<char>>)
    requires
        d.no_duplicates(),
        forall|w: Seq<char>| #[trigger] a.contains(w) ==> d.contains(w),
    ensures
        cross(a, b) == dot_over(d, a, b),
    decreases a.len(),
{
    if a.len() == 0 {
        lemma_dot_over_empty(d, b);
        assert(a =~= Seq::<Seq<char>>::empty());
    } else {
        let a0 = a.drop_last();
        assert forall|w: Seq<char>| #[trigger] a0.contains(w) implies d.contains(w) by {
            let k = choose|k: int| 0 <= k < a0.len() && a0[k] == w;
            assert(a[k] == w);
            assert(a.contains(w));
        }
        lemma_cross_as_dot(a0, b, d);
        lemma_dot_over_push(d, a0, a.last(), b);
        assert(a0.push(a.last()) =~= a);
        assert(a.contains(a.last())) by {
            assert(a[a.len() - 1] == a.last());
        }
    }
}

pub proof fn lemma_cauchy_step(x: int, y: int, p: int, q: int, z: int)
    requires
        0 <= x,
        0 <= y,
        0 <= p,
        0 <= q,
        0 <= z,
        z * z <= p * q,
    ensures
        (z + x * y) * (z + x * y) <= (p + x * x) * (q + y * y),
{
    let xx = x * x;
    let yy = y * y;
    let u = xx * q + yy * p;
    let v = 2 * x * y * z;
    assert(xx >= 0 && yy >= 0) by (nonlinear_arith)
        requires
            xx == x * x,
            yy == y * y,
    ;
    assert(u * u - 4 * xx * yy * (p * q) == (xx * q - yy * p) * (xx * q - yy * p)) by (nonlinear_arith)
        requires
            u == xx * q + yy * p,
    ;
    assert((xx * q - yy * p) * (xx * q - yy * p) >= 0) by (nonlinear_arith);
    assert(4 * xx * yy * (z * z) <= 4 * xx * yy * (p * q)) by (nonlinear_arith)
        requires
            z * z <= p * q,
            xx >= 0,
            yy >= 0,
    ;
    assert(v * v == 4 * xx * yy * (z * z)) by (nonlinear_arith)
        requires
            v == 2 * x * y * z,
            xx == x * x,
            yy == y * y,
    ;
    assert(u >= 0 && v >= 0) by (nonlinear_arith)
        requires
            u == xx * q + yy * p,
            v == 2 * x * y * z,
            xx >= 0,
            yy >= 0,
            0 <= x,
            0 <= y,
            0 <= p,
            0 <= q,
            0 <= z,
    ;
    assert(v <= u) by (nonlinear_arith)
        requires
            u >= 0,
            v >= 0,
            v * v <= u * u,
    ;
    assert((z + x * y) * (z + x * y) == z * z + v + xx * yy) by (nonlinear_arith)
        requires
            v == 2 * x * y * z,
            xx == x * x,
            yy == y * y,
    ;
    assert((p + xx) * (q + yy) == p * q + u + xx * yy) by (nonlinear_arith)
        requires
            u == xx * q + yy * p,
    ;
}

pub proof fn lemma_dot_over_cauchy(d: Seq<Seq<char>>, a: Seq<Seq<char>>, b: Seq<Seq<char>>)
    ensures
        dot_over(d, a, b) * dot_over(d, a, b) <= dot_over(d, a, a) * dot_over(d, b, b),
    decreases d.len(),
{
    if d.len() > 0 {
        let d0 = d.drop_last();
        lemma_dot_over_cauchy(d0, a, b);
        let x = occurrences(a, d.last()) as int;
        let y = occurrences(b, d.last()) as int;
        lemma_cauchy_step(
            x,
            y,
            dot_over(d0, a, a) as int,
            dot_over(d0, b, b) as int,
            dot_over(d0, a, b) as int,
        );
    }
}

/// The dot product is at most the product of the two norms (its square is
/// at most the product of the squared norms): the cosine similarity is at
/// most one.
pub proof fn law_cross_cauchy_schwarz(a: Seq<Seq<char>>, b: Seq<Seq<char>>)
    ensures
        cross(a, b) * cross(a, b) <= cross(a, a) * cross(b, b),
{
    let d = distinct_of(a + b);
    lemma_distinct_of(a + b);
    assert forall|w: Seq<char>| #[trigger] a.contains(w) implies d.contains(w) by {
        let k = choose|k: int| 0 <= k < a.len() && a[k] == w;
        assert((a + b)[k] == w);
    }
    assert forall|w: Seq<char>| #[trigger] b.contains(w) implies d.contains(w) by {
        let k = choose|k: int| 0 <= k < b.len() && b[k] == w;
        assert((a + b)[a.len() + k] == w);
    }
    lemma_cross_as_dot(a, b, d);
    lemma_cross_as_dot(a, a, d);
    lemma_cross_as_dot(b, b, d);
    lemma_dot_over_cauchy(d, a, b);
}

/// A term-frequency table of `s` taken up to `i`: distinct terms, each with
/// its number of occurrences in `s.take(i)`, every term of `s.take(i)` present.
pub open spec fn counts_terms(t: Seq<(String, usize)>, s: Seq<Seq<char>>) -> bool {
    &&& forall|a: int, b: int| 0 <= a < t.len() && 0 <= b < t.len() && a != b ==> t[a].0@ != t[b].0@
    &&& forall|a: int| 0 <= a < t.len() ==> (#[trigger] t[a]).1 == occurrences(s, t[a].0@)
    &&& forall|a: int| 0 <= a < t.len() ==> s.contains((#[trigger] t[a]).0@)
    &&& forall|w: Seq<char>| #[trigger] s.contains(w) ==> exists|a: int| 0 <= a < t.len() && (#[trigger] t[a]).0@ == w
}

/// The terms of a term-frequency table, in table order.
pub open spec fn term_keys(t: Seq<(String, usize)>) -> Seq<Seq<char>> {
    t.map_values(|e: (String, usize)| e.0@)
}

/// The term-frequency table of the tokens `toks`, in order of first occurrence.
fn term_counts(toks: &Vec<String>) -> (r: Vec<(String, usize)>)
    ensures
        counts_terms(r@, str_views(toks@)),
        term_keys(r@) == distinct_of(str_views(toks@)),
{
    let ghost sv = str_views(toks@);
    let mut t: Vec<(String, usize)> = Vec::new();
    let mut i: usize = 0;
    while i < toks.len()
        invariant
            sv == str_views(toks@),
            i <= toks@.len(),
            counts_terms(t@, sv.take(i as int)),
            term_keys(t@) == distinct_of(sv.take(i as int)),
            forall|a: int| 0 <= a < t@.len() ==> (#[trigger] t@[a]).1 <= i,
        decreases toks@.len() - i,
    {
        let ghost prev = sv.take(i as int);
        let ghost next = sv.take(i + 1);
        let ghost w = toks@[i as int]@;
        assert(next.drop_last() =~= prev);
        assert(next.last() == w);
        assert(sv[i as int] == w);
        assert forall|x: Seq<char>| #[trigger] next.contains(x) <==> (prev.contains(x) || x == w) by {
            if next.contains(x) && x != w {
                let k = choose|k: int| 0 <= k < next.len() && next[k] == x;
                assert(prev[k] == x);
            }
            if prev.contains(x) {
                let k = choose|k: int| 0 <= k < prev.len() && prev[k] == x;
                assert(next[k] == x);
            }
            assert(next[i as int] == w);
        }
        let ghost old_t = t@;
        proof {
            lemma_distinct_of(prev);
        }
        match find_key(&t, &toks[i]) {
            Some(p) => {
                let c = t[p].1;
                t.set(p, (toks[i].clone(), c + 1));
                assert forall|a: int| 0 <= a < t@.len() implies (#[trigger] t@[a]).1 == occurrences(next, t@[a].0@) by {
                    assert(t@[a].0@ == old_t[a].0@);
                }
                assert forall|a: int| 0 <= a < t@.len() implies next.contains((#[trigger] t@[a]).0@) by {
                    assert(t@[a].0@ == old_t[a].0@);
                    assert(prev.contains(old_t[a].0@));
                }
                assert(prev.contains(w)) by {
                    assert(old_t[p as int].0@ == w);
                }
                assert(distinct_of(prev).contains(w));
                assert(term_keys(t@) =~= term_keys(old_t)) by {
                    assert forall|a: int| 0 <= a < t@.len() implies t@[a].0@ == old_t[a].0@ by {
                    }
                }
                assert forall|x: Seq<char>| #[trigger] next.contains(x) implies exists|a: int| 0 <= a < t@.len() && (#[trigger] t@[a]).0@ == x by {
                    if x == w {
                        assert(t@[p as int].0@ == x);
                    } else {
                        assert(prev.contains(x));
                        let a = choose|a: int| 0 <= a < old_t.len() && (#[trigger] old_t[a]).0@ == x;
                        assert(t@[a].0@ == x);
                    }
                }
            },
            None => {
                t.push((toks[i].clone(), 1));
                proof {
                    lemma_occurrences_bound(prev, w);
                    assert(!prev.contains(w)) by {
                        if prev.contains(w) {
                            let a = choose|a: int| 0 <= a < old_t.len() && (#[trigger] old_t[a]).0@ == w;
                        }
                    }
                }
                assert(!distinct_of(prev).contains(w));
                assert(term_keys(t@) =~= term_keys(old_t).push(w));
                assert forall|a: int| 0 <= a < t@.len() implies (#[trigger] t@[a]).1 == occurrences(next, t@[a].0@) by {
                    if a < old_t.len() {
                        assert(t@[a] == old_t[a]);
                    }
                }
                assert forall|a: int| 0 <= a < t@.len() implies next.contains((#[trigger] t@[a]).0@) by {
                    if a < old_t.len() {
                        assert(t@[a] == old_t[a]);
                        assert(prev.contains(old_t[a].0@));
                    }
                }
                assert forall|x: Seq<char>| #[trigger] next.contains(x) implies exists|a: int| 0 <= a < t@.len() && (#[trigger] t@[a]).0@ == x by {
                    if x == w {
                        assert(t@[old_t.len() as int].0@ == x);
                    } else {
                        assert(prev.contains(x));
                        let a = choose|a: int| 0 <= a < old_t.len() && (#[trigger] old_t[a]).0@ == x;
                        assert(t@[a] == old_t[a]);
                    }
                }
            },
        }
        i += 1;
    }
    assert(sv.take(toks@.len() as int) =~= sv);
    t
}

/// The number of the documents `docs` that hold the token `w`.
pub open spec fn doc_count(docs: Seq<Seq<Seq<char>>>, w: Seq<char>) -> nat
    decreases docs.len(),
{
    if docs.len() == 0 {
        0
    } else {
        doc_count(docs.drop_last(), w) + if docs.last().contains(w) {
            1nat
        } else {
            0nat
        }
    }
}

/// The token lists `docs`, read as text.
pub open spec fn doc_views(docs: Seq<Vec<String>>) -> Seq<Seq<Seq<char>>> {
    docs.map_values(|d: Vec<String>| str_views(d@))
}

impl CodeMapper {
    /// The term-frequency table of the tokens `tokens`: each distinct token,
    /// in order of first occurrence, with its number of occurrences.
    pub fn term_frequencies(tokens: &Vec<String>) -> (r: Vec<(String, usize)>)
        ensures
            term_keys(r@) == distinct_of(str_views(tokens@)),
            forall|k: int| 0 <= k < r@.len() ==> (#[trigger] r@[k]).1 == occurrences(str_views(tokens@), r@[k].0@),
    {
        term_counts(tokens)
    }

    /// The document frequency of each of `terms` over the token lists
    /// `docs`: in how many of the documents it occurs.
    pub fn document_frequencies(docs: &Vec<Vec<String>>, terms: &Vec<String>) -> (r: Vec<usize>)
        ensures
            r@.len() == terms@.len(),
            forall|k: int| 0 <= k < r@.len() ==> #[trigger] r@[k] == doc_count(doc_views(docs@), terms@[k]@),
    {
        let ghost dv = doc_views(docs@);
        let mut r: Vec<usize> = Vec::new();
        let mut k: usize = 0;
        while k < terms.len()
            invariant
                dv == doc_views(docs@),
                k <= terms@.len(),
                r@.len() == k,
                forall|q: int| 0 <= q < k ==> #[trigger] r@[q] == doc_count(dv, terms@[q]@),
            decreases terms@.len() - k,
        {
            let mut n: usize = 0;
            let mut i: usize = 0;
            while i < docs.len()
                invariant
                    dv == doc_views(docs@),
                    k < terms@.len(),
                    i <= docs@.len(),
                    n == doc_count(dv.take(i as int), terms@[k as int]@),
                    n <= i,
                decreases docs@.len() - i,
            {
                assert(dv.take(i + 1).drop_last() =~= dv.take(i as int));
                assert(dv.take(i + 1).last() == str_views(docs@[i as int]@));
                if contains_string(&docs[i], &terms[k]) {
                    n = n + 1;
                }
                i += 1;
            }
            assert(dv.take(docs@.len() as int) =~= dv);
            r.push(n);
            k += 1;
        }
        r
    }
}

/// The number of occurrences of `w` in the tokens that `t` counts.
fn count_of(t: &Vec<(String, usize)>, w: &String, Ghost(s): Ghost<Seq<Seq<char>>>) -> (r: usize)
    requires
        counts_terms(t@, s),
    ensures
        r == occurrences(s, w@),
{
    match find_key(t, w) {
        Some(p) => t[p].1,
        None => {
            proof {
                lemma_occurrences_bound(s, w@);
                if s.contains(w@) {
                    let a = choose|a: int| 0 <= a < t@.len() && (#[trigger] t@[a]).0@ == w@;
                }
            }
            0
        },
    }
}

/// `sum over the tokens x of a of occurrences(b, x)`, given the table of `b`.
fn cross_exec(a: &Vec<String>, tb: &Vec<(String, usize)>, Ghost(b): Ghost<Seq<Seq<char>>>) -> (r: u128)
    requires
        counts_terms(tb@, b),
        b.len() <= usize::MAX,
    ensures
        r == cross(str_views(a@), b),
{
    let ghost av = str_views(a@);
    let mut sum: u128 = 0;
    let mut i: usize = 0;
    while i < a.len()
        invariant
            av == str_views(a@),
            counts_terms(tb@, b),
            b.len() <= usize::MAX,
            i <= a@.len(),
            sum == cross(av.take(i as int), b),
            sum <= i * b.len(),
        decreases a@.len() - i,
    {
        assert(av.take(i + 1).drop_last() =~= av.take(i as int));
        assert(av[i as int] == a@[i as int]@);
        let c = count_of(tb, &a[i], Ghost(b));
        proof {
            lemma_occurrences_bound(b, a@[i as int]@);
            assert(i * b.len() + b.len() == (i + 1) * b.len()) by (nonlinear_arith);
            assert((i + 1) * b.len() <= usize::MAX * usize::MAX) by (nonlinear_arith)
                requires
                    i + 1 <= usize::MAX,
                    b.len() <= usize::MAX,
            ;
            assert(usize::MAX * usize::MAX < u128::MAX) by (nonlinear_arith)
                requires
                    usize::MAX <= u64::MAX,
            ;
        }
        sum = sum + c as u128;
        i += 1;
    }
    assert(av.take(a@.len() as int) =~= av);
    sum
}

impl CodeMapper {
    /// The whole-number parts of the cosine similarity of two token lists
    /// `a` and `b`: the dot product of their term-frequency vectors and the
    /// squares of their norms, `(a . b, a . a, b . b)`.
    pub fn cosine_terms(a: &Vec<String>, b: &Vec<String>) -> (r: (u128, u128, u128))
        ensures
            r.0 == cross(str_views(a@), str_views(b@)),
            r.1 == cross(str_views(a@), str_views(a@)),
            r.2 == cross(str_views(b@), str_views(b@)),
    {
        let la = a.len();
        let lb = b.len();
        assert(str_views(a@).len() == la);
        assert(str_views(b@).len() == lb);
        let ta = term_counts(a);
        let tb = term_counts(b);
        let dot = cross_exec(a, &tb, Ghost(str_views(b@)));
        let na = cross_exec(a, &ta, Ghost(str_views(a@)));
        let nb = cross_exec(b, &tb, Ghost(str_views(b@)));
        (dot, na, nb)
    }
}

} // verus!
