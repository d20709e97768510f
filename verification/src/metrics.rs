//! Line metrics of a file and the rough cyclomatic complexity of a line.
use vstd::prelude::*;
use crate::mapper::CodeMapper;
use crate::text::{
    chars_of, count_matches, count_matches_exec, lemma_count_matches_bound, lines_of, lines_exec,
    trim, trim_white, contains, is_text, starts_with_text, contains_text, char_views, split_by,
    CharClass, class_fn,
};

verus! {

/// The longest text, in characters, that the analyser takes: counts kept in
/// `usize` and brace depths kept in `i32` then cannot overflow.
pub const MAX_TEXT_CHARS: usize = 0x3fff_ffff;

/// `1` plus the number of branching keywords and boolean operators in `line`.
pub open spec fn complexity_of(line: Seq<char>) -> nat {
    1 + count_matches(line, "if "@) + count_matches(line, "for "@) + count_matches(line, "while "@)
        + count_matches(line, "loop "@) + count_matches(line, "match "@) + count_matches(
        line,
        "&&"@,
    ) + count_matches(line, "||"@)
}

/// The decision points of `line`: its branching keywords and boolean
/// operators, that is its complexity less the base `1`.
pub open spec fn decision_points(line: Seq<char>) -> nat {
    (complexity_of(line) - 1) as nat
}

/// A line has fewer than three decision points per character.
pub proof fn lemma_decision_points_bound(line: Seq<char>)
    ensures
        decision_points(line) <= 3 * line.len(),
{
    reveal_strlit("if ");
    reveal_strlit("for ");
    reveal_strlit("while ");
    reveal_strlit("loop ");
    reveal_strlit("match ");
    reveal_strlit("&&");
    reveal_strlit("||");
    lemma_count_matches_bound(line, "if "@);
    lemma_count_matches_bound(line, "for "@);
    lemma_count_matches_bound(line, "while "@);
    lemma_count_matches_bound(line, "loop "@);
    lemma_count_matches_bound(line, "match "@);
    lemma_count_matches_bound(line, "&&"@);
    lemma_count_matches_bound(line, "||"@);
}

/// Counts the occurrences of `kw` in `line`, with the bound that one
/// occurrence takes `kw.len()` characters.
fn count_keyword(line: &[char], kw: &str, Ghost(w): Ghost<nat>) -> (r: usize)
    requires
        kw@.len() == w,
        w >= 2,
    ensures
        r == count_matches(line@, kw@),
        r * w <= line@.len(),
{
    let p = chars_of(kw);
    let r = count_matches_exec(line, &p);
    proof {
        lemma_count_matches_bound(line@, kw@);
    }
    r
}

impl CodeMapper {
    /// The rough cyclomatic complexity of one line.
    pub fn cyclomatic_complexity_approx(line: &[char]) -> (r: usize)
        requires
            line@.len() <= MAX_TEXT_CHARS,
        ensures
            r == complexity_of(line@),
    {
        proof {
            reveal_strlit("if ");
            reveal_strlit("for ");
            reveal_strlit("while ");
            reveal_strlit("loop ");
            reveal_strlit("match ");
            reveal_strlit("&&");
            reveal_strlit("||");
        }
        let a = count_keyword(line, "if ", Ghost(3));
        let b = count_keyword(line, "for ", Ghost(4));
        let c = count_keyword(line, "while ", Ghost(6));
        let d = count_keyword(line, "loop ", Ghost(5));
        let e = count_keyword(line, "match ", Ghost(6));
        let f = count_keyword(line, "&&", Ghost(2));
        let g = count_keyword(line, "||", Ghost(2));
        assert(a <= line@.len() / 3) by (nonlinear_arith)
            requires a * 3 <= line@.len();
        assert(b <= line@.len() / 4) by (nonlinear_arith)
            requires b * 4 <= line@.len();
        assert(c <= line@.len() / 6) by (nonlinear_arith)
            requires c * 6 <= line@.len();
        assert(d <= line@.len() / 5) by (nonlinear_arith)
            requires d * 5 <= line@.len();
        assert(e <= line@.len() / 6) by (nonlinear_arith)
            requires e * 6 <= line@.len();
        assert(f <= line@.len() / 2) by (nonlinear_arith)
            requires f * 2 <= line@.len();
        assert(g <= line@.len() / 2) by (nonlinear_arith)
            requires g * 2 <= line@.len();
        let mut cpx: usize = 1;
        cpx += a;
        cpx += b;
        cpx += c;
        cpx += d;
        cpx += e;
        cpx += f;
        cpx += g;
        cpx
    }
}


/// Line counts of a file while it is read: all lines, code, comments, blank
/// lines, and whether a block comment is open.
pub struct LineCounts {
    pub total: nat,
    pub code: nat,
    pub comment: nat,
    pub blank: nat,
    pub in_block: bool,
}

/// The languages whose comments are `//` and `/* */`.
pub open spec fn slash_comment_language(lang: Seq<char>) -> bool {
    lang == "rust"@ || lang == "javascript"@ || lang == "typescript"@ || lang == "mql5"@ || lang
        == "c"@ || lang == "cpp"@ || lang == "header"@
}

/// The counts after one more line whose trimmed text is `t`.
pub open spec fn count_line(m: LineCounts, lang: Seq<char>, t: Seq<char>) -> LineCounts {
    let m1 = LineCounts { total: m.total + 1, ..m };
    if t.len() == 0 {
        LineCounts { blank: m1.blank + 1, ..m1 }
    } else if slash_comment_language(lang) && m.in_block {
        LineCounts { comment: m1.comment + 1, in_block: !contains(t, "*/"@), ..m1 }
    } else if slash_comment_language(lang) && ("//"@.is_prefix_of(t) || "/*"@.is_prefix_of(t)) {
        LineCounts {
            comment: m1.comment + 1,
            in_block: "/*"@.is_prefix_of(t) && !contains(t, "*/"@),
            ..m1
        }
    } else if lang == "python"@ && "#"@.is_prefix_of(t) {
        LineCounts { comment: m1.comment + 1, ..m1 }
    } else {
        LineCounts { code: m1.code + 1, ..m1 }
    }
}

/// The counts after the lines `lines`.
pub open spec fn count_lines(lines: Seq<Seq<char>>, lang: Seq<char>) -> LineCounts
    decreases lines.len(),
{
    if lines.len() == 0 {
        LineCounts { total: 0, code: 0, comment: 0, blank: 0, in_block: false }
    } else {
        count_line(count_lines(lines.drop_last(), lang), lang, trim(lines.last()))
    }
}

/// The metrics of a text: `(total, code, comment, blank)` line counts.
pub open spec fn metrics_of(content: Seq<char>, lang: Seq<char>) -> (nat, nat, nat, nat) {
    let m = count_lines(lines_of(content), lang);
    (m.total, m.code, m.comment, m.blank)
}

/// The languages whose comments start with `//` or `/*`, named one by one.
pub open spec fn c_style_language(lang: Seq<char>) -> bool {
    ||| lang == "rust"@
    ||| lang == "javascript"@
    ||| lang == "typescript"@
    ||| lang == "mql5"@
    ||| lang == "c"@
    ||| lang == "cpp"@
    ||| lang == "header"@
}

/// A line that starts a comment is counted as a comment line, not as code:
/// in Rust, JavaScript, TypeScript, MQL5, C, C++ and headers a line outside
/// a block comment whose trimmed text starts with `//` or `/*`, in Python one
/// that starts with `#`.  Every other count but the total stays.
pub proof fn law_comment_line_counts_as_comment(lines: Seq<Seq<char>>, l: Seq<char>, lang: Seq<char>)
    requires
        (c_style_language(lang) && !count_lines(lines, lang).in_block && ("//"@.is_prefix_of(trim(l))
            || "/*"@.is_prefix_of(trim(l)))) || (lang == "python"@ && "#"@.is_prefix_of(trim(l))),
    ensures
        count_lines(lines.push(l), lang).comment == count_lines(lines, lang).comment + 1,
        count_lines(lines.push(l), lang).code == count_lines(lines, lang).code,
        count_lines(lines.push(l), lang).blank == count_lines(lines, lang).blank,
        count_lines(lines.push(l), lang).total == count_lines(lines, lang).total + 1,
{
    reveal_strlit("//");
    reveal_strlit("/*");
    reveal_strlit("#");
    reveal_strlit("python");
    reveal_strlit("rust");
    reveal_strlit("javascript");
    reveal_strlit("typescript");
    reveal_strlit("mql5");
    reveal_strlit("c");
    reveal_strlit("cpp");
    reveal_strlit("header");
    assert(lines.push(l).drop_last() =~= lines);
    assert(trim(l).len() > 0) by {
        if "#"@.is_prefix_of(trim(l)) {
            assert("#"@.len() == 1);
        } else {
            assert("//"@.len() == 2 && "/*"@.len() == 2);
        }
    }
    if lang == "python"@ {
        assert(!slash_comment_language(lang)) by {
            assert("python"@[0] != "rust"@[0]);
            assert("python"@[0] != "javascript"@[0]);
            assert("python"@[0] != "typescript"@[0]);
            assert("python"@[0] != "mql5"@[0]);
            assert("python"@[0] != "c"@[0]);
            assert("python"@[0] != "cpp"@[0]);
            assert("python"@[0] != "header"@[0]);
        }
    }
}

/// A text of one line whose trimmed text starts a comment has the metrics
/// `(1, 0, 1, 0)`: one line, a comment line.
pub proof fn law_single_comment_line(t: Seq<char>, lang: Seq<char>)
    requires
        forall|i: int| 0 <= i < t.len() ==> t[i] != '\n',
        (c_style_language(lang) && ("//"@.is_prefix_of(trim(t)) || "/*"@.is_prefix_of(trim(t)))) || (
        lang == "python"@ && "#"@.is_prefix_of(trim(t))),
    ensures
        metrics_of(t, lang) == (1nat, 0nat, 1nat, 0nat),
{
    reveal_strlit("//");
    reveal_strlit("/*");
    reveal_strlit("#");
    lemma_split_without_separator(t, class_fn(CharClass::Newline));
    assert(t.len() > 0) by {
        if t.len() == 0 {
            assert(trim(t).len() <= t.len()) by {
                crate::text::lemma_trim_by_len(t, crate::text::white_class());
            }
        }
    }
    assert(t[t.len() - 1] != '\n');
    let lines = lines_of(t);
    assert(lines =~= seq![t]);
    let empty = Seq::<Seq<char>>::empty();
    assert(empty.push(t) =~= lines);
    assert(count_lines(empty, lang).in_block == false);
    law_comment_line_counts_as_comment(empty, t, lang);
}

/// Splitting a text none of whose characters is a separator gives the text.
pub proof fn lemma_split_without_separator(s: Seq<char>, sep: spec_fn(char) -> bool)
    requires
        forall|i: int| 0 <= i < s.len() ==> !sep(#[trigger] s[i]),
    ensures
        split_by(s, sep) == seq![s],
    decreases s.len(),
{
    if s.len() == 0 {
        assert(s =~= Seq::<char>::empty());
    } else {
        let s0 = s.drop_last();
        assert forall|i: int| 0 <= i < s0.len() implies !sep(#[trigger] s0[i]) by {
            assert(s0[i] == s[i]);
        }
        lemma_split_without_separator(s0, sep);
        assert(!sep(s[s.len() - 1]));
        assert(s0.push(s.last()) =~= s);
        assert(seq![s0].update(0, s0.push(s.last())) =~= seq![s]);
    }
}

pub proof fn lemma_count_lines_total(lines: Seq<Seq<char>>, lang: Seq<char>)
    ensures
        count_lines(lines, lang).total == lines.len(),
        count_lines(lines, lang).code + count_lines(lines, lang).comment + count_lines(
            lines,
            lang,
        ).blank == lines.len(),
    decreases lines.len(),
{
    if lines.len() > 0 {
        lemma_count_lines_total(lines.drop_last(), lang);
    }
}

impl CodeMapper {
    /// The line counts of `content` read as the language `lang`: all lines,
    /// code lines, comment lines and blank lines.
    pub fn compute_metrics(content: &str, lang: &str) -> (r: (usize, usize, usize, usize))
        ensures
            (r.0 as nat, r.1 as nat, r.2 as nat, r.3 as nat) == metrics_of(content@, lang@),
            r.0 == r.1 + r.2 + r.3,
    {
        let text = chars_of(content);
        let lines = lines_exec(&text);
        let lang_c = chars_of(lang);
        let slashes = is_text(&lang_c, "rust") || is_text(&lang_c, "javascript") || is_text(
            &lang_c,
            "typescript",
        ) || is_text(&lang_c, "mql5") || is_text(&lang_c, "c") || is_text(&lang_c, "cpp")
            || is_text(&lang_c, "header");
        let python = is_text(&lang_c, "python");
        let ghost lv = char_views(lines@);
        let mut total: usize = 0;
        let mut code: usize = 0;
        let mut comment: usize = 0;
        let mut blank: usize = 0;
        let mut in_block = false;
        let mut i: usize = 0;
        while i < lines.len()
            invariant
                lv == char_views(lines@),
                slashes == slash_comment_language(lang@),
                python == (lang@ == "python"@),
                i <= lines@.len(),
                count_lines(lv.take(i as int), lang@) == (LineCounts {
                    total: total as nat,
                    code: code as nat,
                    comment: comment as nat,
                    blank: blank as nat,
                    in_block,
                }),
            decreases lines@.len() - i,
        {
            proof {
                assert(lv.take(i + 1).drop_last() =~= lv.take(i as int));
                lemma_count_lines_total(lv.take(i as int), lang@);
            }
            assert(lv[i as int] == lines@[i as int]@);
            let t = trim_white(&lines[i]);
            total += 1;
            if t.len() == 0 {
                blank += 1;
            } else if slashes && in_block {
                comment += 1;
                if contains_text(&t, "*/") {
                    in_block = false;
                }
            } else if slashes && (starts_with_text(&t, "//") || starts_with_text(&t, "/*")) {
                comment += 1;
                if starts_with_text(&t, "/*") && !contains_text(&t, "*/") {
                    in_block = true;
                }
            } else if python && starts_with_text(&t, "#") {
                comment += 1;
            } else {
                code += 1;
            }
            i += 1;
        }
        assert(lv.take(lines@.len() as int) =~= lv);
        proof {
            lemma_count_lines_total(lv, lang@);
        }
        (total, code, comment, blank)
    }
}

} // verus!
