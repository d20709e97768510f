//! Text over characters: the pieces of `str`'s behaviour that the parsers
//! use (trimming, prefixes, searching, counting, splitting, lines), each
//! stated as a spec function over `Seq<char>` and computed on `Vec<char>`.
use vstd::prelude::*;
use crate::unicode::{white_char, alnum_char, is_whitespace, is_alphanumeric};

verus! {

/// The views of a sequence of character vectors.
pub open spec fn char_views(v: Seq<Vec<char>>) -> Seq<Seq<char>> {
    v.map_values(|x: Vec<char>| x@)
}

/// The views of a sequence of strings.
pub open spec fn str_views(v: Seq<String>) -> Seq<Seq<char>> {
    v.map_values(|x: String| x@)
}

/// The characters of a text, in order.
pub fn chars_of(s: &str) -> (r: Vec<char>)
    ensures
        r@ == s@,
{
    let mut r: Vec<char> = Vec::new();
    for c in it: s.chars()
        invariant
            r@ == it.seq().take(it.index() as int),
            it.seq() == s@,
    {
        r.push(c);
    }
    r
}

/// The text made of the characters `cs`.
pub fn string_of(cs: &[char]) -> (r: String)
    ensures
        r@ == cs@,
{
    let mut r = String::new();
    let mut i: usize = 0;
    while i < cs.len()
        invariant
            i <= cs@.len(),
            r@ == cs@.take(i as int),
        decreases cs@.len() - i,
    {
        r.push(cs[i]);
        i += 1;
        assert(r@ =~= cs@.take(i as int));
    }
    assert(cs@.take(cs@.len() as int) =~= cs@);
    r
}

/// The characters `s[from..to]`.
pub fn copy_range(s: &[char], from: usize, to: usize) -> (r: Vec<char>)
    requires
        from <= to <= s@.len(),
    ensures
        r@ == s@.subrange(from as int, to as int),
{
    let mut r: Vec<char> = Vec::new();
    let mut i = from;
    while i < to
        invariant
            from <= i <= to <= s@.len(),
            r@ == s@.subrange(from as int, i as int),
        decreases to - i,
    {
        r.push(s[i]);
        i += 1;
        assert(r@ =~= s@.subrange(from as int, i as int));
    }
    r
}

// ------------------------------------------------------------------
// Trimming by a character class
// ------------------------------------------------------------------

/// `s` with every leading character of the class `f` removed.
pub open spec fn trim_start_by(s: Seq<char>, f: spec_fn(char) -> bool) -> Seq<char>
    decreases s.len(),
{
    if s.len() > 0 && f(s[0]) {
        trim_start_by(s.drop_first(), f)
    } else {
        s
    }
}

/// `s` with every trailing character of the class `f` removed.
pub open spec fn trim_end_by(s: Seq<char>, f: spec_fn(char) -> bool) -> Seq<char>
    decreases s.len(),
{
    if s.len() > 0 && f(s.last()) {
        trim_end_by(s.drop_last(), f)
    } else {
        s
    }
}

/// `s` with the characters of the class `f` removed at both ends.
pub open spec fn trim_by(s: Seq<char>, f: spec_fn(char) -> bool) -> Seq<char> {
    trim_end_by(trim_start_by(s, f), f)
}

/// The whitespace class of `char::is_whitespace`.
pub open spec fn white_class() -> spec_fn(char) -> bool {
    |c: char| white_char(c)
}

/// The class of the characters in `set`.
pub open spec fn set_class(set: Seq<char>) -> spec_fn(char) -> bool {
    |c: char| set.contains(c)
}

/// What `str::trim` returns.
pub open spec fn trim(s: Seq<char>) -> Seq<char> {
    trim_by(s, white_class())
}

/// What `str::trim_start` returns.
pub open spec fn trim_start(s: Seq<char>) -> Seq<char> {
    trim_start_by(s, white_class())
}

/// The number of leading whitespace characters of `s`.
pub open spec fn indent_of(s: Seq<char>) -> nat {
    (s.len() - trim_start(s).len()) as nat
}

pub proof fn lemma_trim_start_by_skip(s: Seq<char>, f: spec_fn(char) -> bool, a: int)
    requires
        0 <= a <= s.len(),
        forall|i: int| 0 <= i < a ==> f(#[trigger] s[i]),
        a == s.len() || !f(s[a]),
    ensures
        trim_start_by(s, f) == s.skip(a),
    decreases a,
{
    if a > 0 {
        assert forall|i: int| 0 <= i < a - 1 implies f(#[trigger] s.drop_first()[i]) by {
            assert(s.drop_first()[i] == s[i + 1]);
        }
        lemma_trim_start_by_skip(s.drop_first(), f, a - 1);
        assert(s.drop_first().skip(a - 1) =~= s.skip(a));
    } else {
        assert(s.skip(0) =~= s);
    }
}

pub proof fn lemma_trim_end_by_take(s: Seq<char>, f: spec_fn(char) -> bool, b: int)
    requires
        0 <= b <= s.len(),
        forall|i: int| b <= i < s.len() ==> f(#[trigger] s[i]),
        b == 0 || !f(s[b - 1]),
    ensures
        trim_end_by(s, f) == s.take(b),
    decreases s.len() - b,
{
    if b < s.len() {
        assert forall|i: int| b <= i < s.len() - 1 implies f(#[trigger] s.drop_last()[i]) by {
            assert(s.drop_last()[i] == s[i]);
        }
        lemma_trim_end_by_take(s.drop_last(), f, b);
        assert(s.drop_last().take(b) =~= s.take(b));
    } else {
        assert(s.take(b) =~= s);
    }
}

/// The bounds `(a, b)` with `trim_by(s, f) == s[a..b]`, given where the
/// leading run of the class ends and where the trailing run begins.
pub proof fn lemma_trim_by_range(s: Seq<char>, f: spec_fn(char) -> bool, a: int, b: int)
    requires
        0 <= a <= b <= s.len(),
        forall|i: int| 0 <= i < a ==> f(#[trigger] s[i]),
        a == s.len() || !f(s[a]),
        forall|i: int| b <= i < s.len() ==> f(#[trigger] s[i]),
        b == a || !f(s[b - 1]),
    ensures
        trim_by(s, f) == s.subrange(a, b),
{
    lemma_trim_start_by_skip(s, f, a);
    let t = s.skip(a);
    assert forall|i: int| b - a <= i < t.len() implies f(#[trigger] t[i]) by {
        assert(t[i] == s[i + a]);
    }
    if b - a > 0 {
        assert(t[b - a - 1] == s[b - 1]);
    }
    lemma_trim_end_by_take(t, f, b - a);
    assert(t.take(b - a) =~= s.subrange(a, b));
}

/// `s` with leading and trailing whitespace removed (`str::trim`).
pub fn trim_white(s: &[char]) -> (r: Vec<char>)
    ensures
        r@ == trim(s@),
{
    let mut a: usize = 0;
    while a < s.len() && is_whitespace(s[a])
        invariant
            a <= s@.len(),
            forall|i: int| 0 <= i < a ==> white_class()(#[trigger] s@[i]),
        decreases s@.len() - a,
    {
        a += 1;
    }
    let mut b: usize = s.len();
    while b > a && is_whitespace(s[b - 1])
        invariant
            a <= b <= s@.len(),
            forall|i: int| b <= i < s@.len() ==> white_class()(#[trigger] s@[i]),
        decreases b,
    {
        b -= 1;
    }
    proof {
        lemma_trim_by_range(s@, white_class(), a as int, b as int);
    }
    copy_range(s, a, b)
}

/// The number of leading whitespace characters (`take_while(is_whitespace).count()`).
pub fn indent_width(s: &[char]) -> (r: usize)
    ensures
        r == indent_of(s@),
{
    let mut a: usize = 0;
    while a < s.len() && is_whitespace(s[a])
        invariant
            a <= s@.len(),
            forall|i: int| 0 <= i < a ==> white_class()(#[trigger] s@[i]),
        decreases s@.len() - a,
    {
        a += 1;
    }
    proof {
        lemma_trim_start_by_skip(s@, white_class(), a as int);
    }
    a
}

/// `s` with the characters of `set` removed at both ends
/// (`str::trim_matches` with a character class).
pub fn trim_set(s: &[char], set: &[char]) -> (r: Vec<char>)
    ensures
        r@ == trim_by(s@, set_class(set@)),
{
    let mut a: usize = 0;
    while a < s.len() && in_set(set, s[a])
        invariant
            a <= s@.len(),
            forall|i: int| 0 <= i < a ==> set_class(set@)(#[trigger] s@[i]),
        decreases s@.len() - a,
    {
        a += 1;
    }
    let mut b: usize = s.len();
    while b > a && in_set(set, s[b - 1])
        invariant
            a <= b <= s@.len(),
            forall|i: int| b <= i < s@.len() ==> set_class(set@)(#[trigger] s@[i]),
        decreases b,
    {
        b -= 1;
    }
    proof {
        lemma_trim_by_range(s@, set_class(set@), a as int, b as int);
    }
    copy_range(s, a, b)
}

/// Whether `c` occurs in `set`.
pub fn in_set(set: &[char], c: char) -> (r: bool)
    ensures
        r == set@.contains(c),
{
    let mut i: usize = 0;
    while i < set.len()
        invariant
            i <= set@.len(),
            forall|j: int| 0 <= j < i ==> set@[j] != c,
        decreases set@.len() - i,
    {
        if set[i] == c {
            return true;
        }
        i += 1;
    }
    false
}


// ------------------------------------------------------------------
// Prefixes, searching and counting
// ------------------------------------------------------------------

/// Whether `p` occurs in `s` at index `i`.
pub open spec fn occurs_at(s: Seq<char>, p: Seq<char>, i: int) -> bool {
    0 <= i && i + p.len() <= s.len() && s.subrange(i, i + p.len()) == p
}

/// The first index at or after `i` where `p` occurs in `s` (`str::find`
/// from `i`).
pub open spec fn find_from(s: Seq<char>, p: Seq<char>, i: int) -> Option<int>
    decreases s.len() + 1 - i,
{
    if i < 0 || i + p.len() > s.len() {
        None
    } else if occurs_at(s, p, i) {
        Some(i)
    } else {
        find_from(s, p, i + 1)
    }
}

/// The first index where `p` occurs in `s` (`str::find`).
pub open spec fn find(s: Seq<char>, p: Seq<char>) -> Option<int> {
    find_from(s, p, 0)
}

/// Whether `p` occurs in `s` (`str::contains`).
pub open spec fn contains(s: Seq<char>, p: Seq<char>) -> bool {
    find(s, p) is Some
}

/// The number of non-overlapping occurrences of `p` in `s`, searched from
/// the left (`str::matches(p).count()`).
pub open spec fn count_matches(s: Seq<char>, p: Seq<char>) -> nat
    decreases s.len(),
{
    if p.len() == 0 || s.len() < p.len() {
        0
    } else if p.is_prefix_of(s) {
        1 + count_matches(s.skip(p.len() as int), p)
    } else {
        count_matches(s.drop_first(), p)
    }
}

/// `s` with every leading copy of `p` removed (`str::trim_start_matches`).
pub open spec fn trim_start_matches(s: Seq<char>, p: Seq<char>) -> Seq<char>
    decreases s.len(),
{
    if p.len() > 0 && p.is_prefix_of(s) {
        trim_start_matches(s.skip(p.len() as int), p)
    } else {
        s
    }
}

/// `s` with every trailing `c` removed (`str::trim_end_matches` with a char).
pub open spec fn trim_end_char(s: Seq<char>, c: char) -> Seq<char>
    decreases s.len(),
{
    if s.len() > 0 && s.last() == c {
        trim_end_char(s.drop_last(), c)
    } else {
        s
    }
}

/// Whether `p` occurs in `s` at index `i`.
pub fn occurs_at_exec(s: &[char], p: &[char], i: usize) -> (r: bool)
    ensures
        r == occurs_at(s@, p@, i as int),
{
    if i > s.len() || p.len() > s.len() - i {
        return false;
    }
    let mut k: usize = 0;
    while k < p.len()
        invariant
            i + p@.len() <= s@.len(),
            s@.len() <= usize::MAX,
            k <= p@.len(),
            forall|j: int| 0 <= j < k ==> s@[i + j] == p@[j],
        decreases p@.len() - k,
    {
        assert(i + k < s@.len());
        if s[i + k] != p[k] {
            assert(s@.subrange(i as int, i + p@.len())[k as int] != p@[k as int]);
            return false;
        }
        k += 1;
    }
    assert(s@.subrange(i as int, i + p@.len()) =~= p@);
    true
}

/// Whether `s` starts with `p` (`str::starts_with`).
pub fn starts_with(s: &[char], p: &[char]) -> (r: bool)
    ensures
        r == p@.is_prefix_of(s@),
{
    let r = occurs_at_exec(s, p, 0);
    proof {
        if p@.len() <= s@.len() {
            assert(s@.subrange(0, p@.len() as int) =~= s@.take(p@.len() as int));
        }
    }
    r
}

/// Whether `s` ends with `p` (`str::ends_with`).
pub fn ends_with(s: &[char], p: &[char]) -> (r: bool)
    ensures
        r == p@.is_suffix_of(s@),
{
    if p.len() > s.len() {
        return false;
    }
    let r = occurs_at_exec(s, p, s.len() - p.len());
    proof {
        assert(s@.subrange(s@.len() - p@.len(), s@.len() as int) =~= s@.subrange(
            s@.len() - p@.len(),
            s@.len() - p@.len() + p@.len(),
        ));
    }
    r
}

/// The first index at or after `from` where `p` occurs in `s`.
pub fn find_exec(s: &[char], p: &[char], from: usize) -> (r: Option<usize>)
    ensures
        match r {
            Some(i) => find_from(s@, p@, from as int) == Some(i as int),
            None => find_from(s@, p@, from as int) is None,
        },
        r matches Some(i) ==> from <= i && i + p@.len() <= s@.len() && occurs_at(s@, p@, i as int),
{
    let mut i = from;
    while i <= s.len() && p.len() <= s.len() - i
        invariant
            from <= i,
            find_from(s@, p@, from as int) == find_from(s@, p@, i as int),
        decreases s@.len() + 1 - i,
    {
        if occurs_at_exec(s, p, i) {
            return Some(i);
        }
        if i == s.len() {
            proof {
                assert(s@.subrange(i as int, i as int) =~= p@);
            }
            return None;
        }
        i += 1;
    }
    None
}

/// Whether `p` occurs in `s` (`str::contains`).
pub fn contains_exec(s: &[char], p: &[char]) -> (r: bool)
    ensures
        r == contains(s@, p@),
{
    find_exec(s, p, 0).is_some()
}

pub proof fn lemma_count_matches_bound(s: Seq<char>, p: Seq<char>)
    requires
        p.len() > 0,
    ensures
        count_matches(s, p) * p.len() <= s.len(),
    decreases s.len(),
{
    if s.len() < p.len() {
        assert(count_matches(s, p) == 0);
        assert(0 * p.len() == 0) by (nonlinear_arith);
    } else if p.is_prefix_of(s) {
        let rest = s.skip(p.len() as int);
        lemma_count_matches_bound(rest, p);
        let k = count_matches(rest, p);
        assert(rest.len() == s.len() - p.len());
        assert(count_matches(s, p) == 1 + k);
        assert((1 + k) * p.len() == p.len() + k * p.len()) by (nonlinear_arith);
        assert(count_matches(s, p) * p.len() <= s.len());
    } else {
        lemma_count_matches_bound(s.drop_first(), p);
        let k = count_matches(s.drop_first(), p);
        assert(count_matches(s, p) == k);
        assert(k * p.len() <= s.len() - 1);
    }
}

/// The number of non-overlapping occurrences of `p` in `s`
/// (`str::matches(p).count()`).
pub fn count_matches_exec(s: &[char], p: &[char]) -> (r: usize)
    requires
        p@.len() > 0,
    ensures
        r == count_matches(s@, p@),
{
    let mut c: usize = 0;
    let mut i: usize = 0;
    assert(s@.skip(0) =~= s@);
    while i < s.len()
        invariant
            i <= s@.len(),
            c <= i,
            p@.len() > 0,
            count_matches(s@, p@) == c + count_matches(s@.skip(i as int), p@),
        decreases s@.len() - i,
    {
        let ghost t = s@.skip(i as int);
        if p.len() > s.len() - i {
            assert(count_matches(t, p@) == 0);
            i = s.len();
            assert(s@.skip(i as int).len() == 0);
        } else if occurs_at_exec(s, p, i) {
            assert(t.subrange(0, p@.len() as int) =~= s@.subrange(i as int, i + p@.len()));
            assert(p@.is_prefix_of(t));
            assert(t.skip(p@.len() as int) =~= s@.skip(i + p@.len()));
            c += 1;
            i += p.len();
        } else {
            assert(t.subrange(0, p@.len() as int) =~= s@.subrange(i as int, i + p@.len()));
            assert(!p@.is_prefix_of(t));
            assert(t.drop_first() =~= s@.skip(i + 1));
            i += 1;
        }
    }
    assert(s@.skip(i as int).len() == 0);
    c
}

/// `s` with every leading copy of `p` removed.
pub fn trim_start_matches_exec(s: &[char], p: &[char]) -> (r: Vec<char>)
    ensures
        r@ == trim_start_matches(s@, p@),
{
    if p.len() == 0 {
        return copy_range(s, 0, s.len());
    }
    let mut i: usize = 0;
    assert(s@.skip(0) =~= s@);
    while i <= s.len() && p.len() <= s.len() - i && occurs_at_exec(s, p, i)
        invariant
            i <= s@.len(),
            p@.len() > 0,
            trim_start_matches(s@, p@) == trim_start_matches(s@.skip(i as int), p@),
        decreases s@.len() - i,
    {
        let ghost t = s@.skip(i as int);
        assert(t.subrange(0, p@.len() as int) =~= s@.subrange(i as int, i + p@.len()));
        assert(t.skip(p@.len() as int) =~= s@.skip(i + p@.len()));
        i += p.len();
    }
    let ghost t = s@.skip(i as int);
    proof {
        if p@.len() <= t.len() {
            assert(t.subrange(0, p@.len() as int) =~= s@.subrange(i as int, i + p@.len()));
        }
        assert(!p@.is_prefix_of(t));
    }
    let r = copy_range(s, i, s.len());
    assert(r@ =~= t);
    r
}

/// `s` with every trailing `c` removed.
pub fn trim_end_char_exec(s: &[char], c: char) -> (r: Vec<char>)
    ensures
        r@ == trim_end_char(s@, c),
{
    let mut b: usize = s.len();
    assert(s@.take(s@.len() as int) =~= s@);
    while b > 0 && s[b - 1] == c
        invariant
            b <= s@.len(),
            trim_end_char(s@, c) == trim_end_char(s@.take(b as int), c),
        decreases b,
    {
        assert(s@.take(b as int).drop_last() =~= s@.take(b - 1));
        b -= 1;
    }
    assert(s@.take(s@.len() as int) =~= s@);
    let r = copy_range(s, 0, b);
    assert(r@ =~= s@.take(b as int));
    r
}


// ------------------------------------------------------------------
// Splitting and lines
// ------------------------------------------------------------------

/// The pieces of `s` between the characters of the class `sep`, empty
/// pieces included (`str::split` with a character class).
pub open spec fn split_by(s: Seq<char>, sep: spec_fn(char) -> bool) -> Seq<Seq<char>>
    decreases s.len(),
{
    if s.len() == 0 {
        seq![Seq::<char>::empty()]
    } else {
        let prev = split_by(s.drop_last(), sep);
        if sep(s.last()) {
            prev.push(Seq::<char>::empty())
        } else {
            prev.update(prev.len() - 1, prev.last().push(s.last()))
        }
    }
}

/// Splitting a text joined at a separator gives the pieces of each side.
pub proof fn lemma_split_by_join(a: Seq<char>, x: char, b: Seq<char>, sep: spec_fn(char) -> bool)
    requires
        sep(x),
    ensures
        split_by(a.push(x) + b, sep) == split_by(a, sep) + split_by(b, sep),
    decreases b.len(),
{
    let s = a.push(x) + b;
    if b.len() == 0 {
        assert(s =~= a.push(x));
        assert(s.drop_last() =~= a);
        assert(split_by(a, sep).push(Seq::<char>::empty()) =~= split_by(a, sep) + seq![Seq::<char>::empty()]);
    } else {
        lemma_split_by_join(a, x, b.drop_last(), sep);
        lemma_split_by_len(b.drop_last(), sep);
        assert(s.drop_last() =~= a.push(x) + b.drop_last());
        assert(s.last() == b.last());
        let pa = split_by(a, sep);
        let pb = split_by(b.drop_last(), sep);
        if sep(b.last()) {
            assert((pa + pb).push(Seq::<char>::empty()) =~= pa + pb.push(Seq::<char>::empty()));
        } else {
            assert((pa + pb).last() == pb.last());
            assert((pa + pb).update((pa + pb).len() - 1, (pa + pb).last().push(b.last())) =~= pa + pb.update(
                pb.len() - 1,
                pb.last().push(b.last()),
            ));
        }
    }
}

pub proof fn lemma_split_by_len(s: Seq<char>, sep: spec_fn(char) -> bool)
    ensures
        split_by(s, sep).len() >= 1,
    decreases s.len(),
{
    if s.len() > 0 {
        lemma_split_by_len(s.drop_last(), sep);
    }
}

/// The character classes that the analyser splits text by.
#[derive(Clone, Copy, Debug, PartialEq, Eq)]
pub enum CharClass {
    /// `'\n'`
    Newline,
    /// `char::is_whitespace`
    Whitespace,
    /// not `char::is_alphanumeric`
    NonAlphanumeric,
    /// neither `char::is_alphanumeric` nor `'_'`
    NonWord,
}

/// The predicate that a character class stands for.
pub open spec fn class_fn(k: CharClass) -> spec_fn(char) -> bool {
    match k {
        CharClass::Newline => |c: char| c == '\n',
        CharClass::Whitespace => white_class(),
        CharClass::NonAlphanumeric => |c: char| !alnum_char(c),
        CharClass::NonWord => |c: char| !alnum_char(c) && c != '_',
    }
}

/// Whether `c` is in the class `k`.
pub fn in_class(c: char, k: CharClass) -> (r: bool)
    ensures
        r == class_fn(k)(c),
{
    match k {
        CharClass::Newline => c == '\n',
        CharClass::Whitespace => is_whitespace(c),
        CharClass::NonAlphanumeric => !is_alphanumeric(c),
        CharClass::NonWord => !is_alphanumeric(c) && c != '_',
    }
}

/// The pieces of `s` between the characters of the class `k`.
pub fn split_exec(s: &[char], k: CharClass) -> (r: Vec<Vec<char>>)
    ensures
        char_views(r@) == split_by(s@, class_fn(k)),
{
    let mut done: Vec<Vec<char>> = Vec::new();
    let mut cur: Vec<char> = Vec::new();
    let mut i: usize = 0;
    assert(s@.take(0) =~= Seq::<char>::empty());
    assert(char_views(done@).push(cur@) =~= split_by(s@.take(0), class_fn(k)));
    while i < s.len()
        invariant
            i <= s@.len(),
            char_views(done@).push(cur@) == split_by(s@.take(i as int), class_fn(k)),
        decreases s@.len() - i,
    {
        let c = s[i];
        let ghost prev = split_by(s@.take(i as int), class_fn(k));
        assert(s@.take(i + 1).drop_last() =~= s@.take(i as int));
        assert(s@.take(i + 1).last() == c);
        if in_class(c, k) {
            let piece = cur;
            done.push(piece);
            cur = Vec::new();
            assert(char_views(done@).push(cur@) =~= prev.push(Seq::<char>::empty()));
        } else {
            cur.push(c);
            assert(char_views(done@).push(cur@) =~= prev.update(
                prev.len() - 1,
                prev.last().push(c),
            ));
        }
        i += 1;
    }
    assert(s@.take(s@.len() as int) =~= s@);
    done.push(cur);
    assert(char_views(done@) =~= split_by(s@, class_fn(k)));
    done
}

/// `l` without one trailing carriage return.
pub open spec fn strip_cr(l: Seq<char>) -> Seq<char> {
    if l.len() > 0 && l.last() == '\r' {
        l.drop_last()
    } else {
        l
    }
}

/// The lines of `s` (`str::lines`): split at `'\n'`, one `'\r'` before a
/// `'\n'` removed, and no empty line after a final line ending.
pub open spec fn lines_of(s: Seq<char>) -> Seq<Seq<char>> {
    let parts = split_by(s, class_fn(CharClass::Newline));
    let body = parts.drop_last().map_values(|l: Seq<char>| strip_cr(l));
    if s.len() == 0 || s.last() == '\n' {
        body
    } else {
        body.push(parts.last())
    }
}

/// `l` without one trailing carriage return.
pub fn strip_cr_exec(l: &[char]) -> (r: Vec<char>)
    ensures
        r@ == strip_cr(l@),
{
    if l.len() > 0 && l[l.len() - 1] == '\r' {
        copy_range(l, 0, l.len() - 1)
    } else {
        copy_range(l, 0, l.len())
    }
}

/// The lines of `s` (`str::lines`).
pub fn lines_exec(s: &[char]) -> (r: Vec<Vec<char>>)
    ensures
        char_views(r@) == lines_of(s@),
{
    let parts = split_exec(s, CharClass::Newline);
    proof {
        lemma_split_by_len(s@, class_fn(CharClass::Newline));
    }
    let ghost pv = char_views(parts@);
    let ghost body = pv.drop_last().map_values(|l: Seq<char>| strip_cr(l));
    let n = parts.len() - 1;
    let mut r: Vec<Vec<char>> = Vec::new();
    let mut i: usize = 0;
    while i < n
        invariant
            n + 1 == parts@.len(),
            pv == char_views(parts@),
            body == pv.drop_last().map_values(|l: Seq<char>| strip_cr(l)),
            i <= n,
            char_views(r@) == body.take(i as int),
        decreases n - i,
    {
        let l = strip_cr_exec(&parts[i]);
        assert(pv[i as int] == parts@[i as int]@);
        assert(body[i as int] == strip_cr(pv[i as int]));
        let ghost old_r = r@;
        r.push(l);
        assert(r@ == old_r.push(l));
        assert(char_views(r@) =~= char_views(old_r).push(l@));
        assert(char_views(r@) =~= body.take(i + 1));
        i += 1;
    }
    assert(body.take(n as int) =~= body);
    if s.len() > 0 && s[s.len() - 1] != '\n' {
        let last = copy_range(&parts[n], 0, parts[n].len());
        assert(pv.last() == parts@[n as int]@);
        assert(last@ =~= parts@[n as int]@);
        let ghost old_r = r@;
        r.push(last);
        assert(char_views(r@) =~= char_views(old_r).push(last@));
        assert(char_views(r@) =~= body.push(pv.last()));
    }
    r
}

/// The non-empty pieces of `s` between whitespace (`str::split_whitespace`).
pub open spec fn split_whitespace(s: Seq<char>) -> Seq<Seq<char>> {
    split_by(s, white_class()).filter(|p: Seq<char>| p.len() > 0)
}

/// The second whitespace-separated word of `s`, if any
/// (`split_whitespace().nth(1)`).
pub fn second_word(s: &[char]) -> (r: Option<Vec<char>>)
    ensures
        match r {
            Some(w) => split_whitespace(s@).len() > 1 && w@ == split_whitespace(s@)[1],
            None => split_whitespace(s@).len() <= 1,
        },
{
    let parts = split_exec(s, CharClass::Whitespace);
    let ghost pv = char_views(parts@);
    let ghost f = |p: Seq<char>| p.len() > 0;
    let mut seen: usize = 0;
    let mut i: usize = 0;
    assert(pv.take(0).filter(f) =~= Seq::<Seq<char>>::empty());
    while i < parts.len()
        invariant
            pv == char_views(parts@),
            pv == split_by(s@, white_class()),
            f == (|p: Seq<char>| p.len() > 0),
            i <= parts@.len(),
            seen == pv.take(i as int).filter(f).len(),
            seen <= 1,
            seen <= i,
        decreases parts@.len() - i,
    {
        let ghost t = pv.take(i + 1);
        assert(t.drop_last() =~= pv.take(i as int));
        proof {
            reveal_with_fuel(Seq::filter, 1);
        }
        if parts[i].len() > 0 {
            if seen == 1 {
                assert(t.filter(f) == pv.take(i as int).filter(f).push(pv[i as int]));
                proof {
                    assert(t.is_prefix_of(pv));
                    t.lemma_filter_monotone(pv, f);
                    assert(t.filter(f)[1] == pv[i as int]);
                }
                let w = copy_range(&parts[i], 0, parts[i].len());
                return Some(w);
            }
            seen += 1;
        }
        i += 1;
    }
    assert(pv.take(parts@.len() as int) =~= pv);
    None
}


/// Whether `a` and `b` hold the same characters.
pub fn same_chars(a: &[char], b: &[char]) -> (r: bool)
    ensures
        r == (a@ == b@),
{
    if a.len() != b.len() {
        return false;
    }
    let mut i: usize = 0;
    while i < a.len()
        invariant
            a@.len() == b@.len(),
            i <= a@.len(),
            forall|j: int| 0 <= j < i ==> a@[j] == b@[j],
        decreases a@.len() - i,
    {
        if a[i] != b[i] {
            return false;
        }
        i += 1;
    }
    assert(a@ =~= b@);
    true
}

/// Whether the text `s` is the literal `lit`.
pub fn is_text(s: &[char], lit: &str) -> (r: bool)
    ensures
        r == (s@ == lit@),
{
    let l = chars_of(lit);
    same_chars(s, &l)
}

/// Whether `s` starts with the literal `lit`.
pub fn starts_with_text(s: &[char], lit: &str) -> (r: bool)
    ensures
        r == lit@.is_prefix_of(s@),
{
    let l = chars_of(lit);
    starts_with(s, &l)
}

/// Whether the literal `lit` occurs in `s`.
pub fn contains_text(s: &[char], lit: &str) -> (r: bool)
    ensures
        r == contains(s@, lit@),
{
    let l = chars_of(lit);
    contains_exec(s, &l)
}


/// The total number of characters in `lines`.
pub open spec fn total_len(lines: Seq<Seq<char>>) -> nat
    decreases lines.len(),
{
    if lines.len() == 0 {
        0
    } else {
        total_len(lines.drop_last()) + lines.last().len()
    }
}

pub proof fn lemma_total_len_push(lines: Seq<Seq<char>>, l: Seq<char>)
    ensures
        total_len(lines.push(l)) == total_len(lines) + l.len(),
{
    assert(lines.push(l).drop_last() =~= lines);
}

pub proof fn lemma_total_len_take(lines: Seq<Seq<char>>, i: int)
    requires
        0 <= i <= lines.len(),
    ensures
        total_len(lines.take(i)) <= total_len(lines),
    decreases lines.len() - i,
{
    if i < lines.len() {
        lemma_total_len_take(lines, i + 1);
        assert(lines.take(i + 1).drop_last() =~= lines.take(i));
    } else {
        assert(lines.take(i) =~= lines);
    }
}

pub proof fn lemma_split_by_total(s: Seq<char>, sep: spec_fn(char) -> bool)
    ensures
        total_len(split_by(s, sep)) + split_by(s, sep).len() == s.len() + 1,
    decreases s.len(),
{
    if s.len() == 0 {
        let one = seq![Seq::<char>::empty()];
        assert(one.drop_last() =~= Seq::<Seq<char>>::empty());
        assert(total_len(one.drop_last()) == 0);
        assert(total_len(one) == 0);
    } else {
        let prev = split_by(s.drop_last(), sep);
        lemma_split_by_total(s.drop_last(), sep);
        lemma_split_by_len(s.drop_last(), sep);
        if sep(s.last()) {
            assert(split_by(s, sep) == prev.push(Seq::<char>::empty()));
            lemma_total_len_push(prev, Seq::<char>::empty());
        } else {
            let x = prev.last().push(s.last());
            assert(split_by(s, sep) == prev.update(prev.len() - 1, x));
            assert(prev.update(prev.len() - 1, x) =~= prev.drop_last().push(x));
            assert(prev =~= prev.drop_last().push(prev.last()));
            lemma_total_len_push(prev.drop_last(), x);
            lemma_total_len_push(prev.drop_last(), prev.last());
            assert(total_len(split_by(s, sep)) == total_len(prev) + 1);
        }
    }
}

pub proof fn lemma_total_len_strip_cr(lines: Seq<Seq<char>>)
    ensures
        total_len(lines.map_values(|l: Seq<char>| strip_cr(l))) <= total_len(lines),
    decreases lines.len(),
{
    if lines.len() > 0 {
        lemma_total_len_strip_cr(lines.drop_last());
        assert(lines.map_values(|l: Seq<char>| strip_cr(l)).drop_last() =~= lines.drop_last().map_values(
            |l: Seq<char>| strip_cr(l),
        ));
    }
}

/// The lines of a text hold no more characters than the text.
pub proof fn lemma_lines_total(s: Seq<char>)
    ensures
        total_len(lines_of(s)) <= s.len(),
        lines_of(s).len() <= s.len() + 1,
{
    let parts = split_by(s, class_fn(CharClass::Newline));
    lemma_split_by_total(s, class_fn(CharClass::Newline));
    lemma_split_by_len(s, class_fn(CharClass::Newline));
    assert(parts =~= parts.drop_last().push(parts.last()));
    lemma_total_len_push(parts.drop_last(), parts.last());
    lemma_total_len_strip_cr(parts.drop_last());
    let body = parts.drop_last().map_values(|l: Seq<char>| strip_cr(l));
    lemma_total_len_push(body, parts.last());
}


pub proof fn lemma_trim_by_len(s: Seq<char>, f: spec_fn(char) -> bool)
    ensures
        trim_by(s, f).len() <= s.len(),
        trim_start_by(s, f).len() <= s.len(),
{
    lemma_trim_start_by_len(s, f);
    lemma_trim_end_by_len(trim_start_by(s, f), f);
}

pub proof fn lemma_trim_start_by_len(s: Seq<char>, f: spec_fn(char) -> bool)
    ensures
        trim_start_by(s, f).len() <= s.len(),
    decreases s.len(),
{
    if s.len() > 0 && f(s[0]) {
        lemma_trim_start_by_len(s.drop_first(), f);
    }
}

pub proof fn lemma_trim_end_by_len(s: Seq<char>, f: spec_fn(char) -> bool)
    ensures
        trim_end_by(s, f).len() <= s.len(),
    decreases s.len(),
{
    if s.len() > 0 && f(s.last()) {
        lemma_trim_end_by_len(s.drop_last(), f);
    }
}

/// Whether `v` holds a string equal to `s`.
pub fn contains_string(v: &Vec<String>, s: &String) -> (r: bool)
    ensures
        r == str_views(v@).contains(s@),
{
    let mut i: usize = 0;
    while i < v.len()
        invariant
            i <= v@.len(),
            forall|j: int| 0 <= j < i ==> v@[j]@ != s@,
        decreases v@.len() - i,
    {
        if v[i] == *s {
            assert(str_views(v@)[i as int] == s@);
            return true;
        }
        i += 1;
    }
    assert forall|j: int| 0 <= j < str_views(v@).len() implies str_views(v@)[j] != s@ by {
        assert(str_views(v@)[j] == v@[j]@);
    }
    false
}

} // verus!
