//! Extraction of imports and functions from source text, one parser per
//! language family.
use vstd::prelude::*;
use crate::mapper::CodeMapper;
use crate::model::{FunctionNode, FunctionView, fn_views};
use crate::metrics::{MAX_TEXT_CHARS, decision_points, lemma_decision_points_bound};
use crate::text::{
    char_views, str_views, lines_of, lines_exec, trim,
    trim_white, find, find_exec, count_matches, count_matches_exec, trim_start_matches,
    trim_start_matches_exec, trim_end_char, trim_end_char_exec, chars_of, string_of, copy_range,
    starts_with_text, contains_string, total_len, lemma_total_len_take, lemma_lines_total,
    lemma_trim_by_len, white_class, lemma_count_matches_bound, indent_of, indent_width,
    split_whitespace, second_word, trim_by, set_class, trim_set, contains, contains_text, starts_with,
    contains_exec,
};
use crate::unicode::{alnum_char, is_alphanumeric};

verus! {

/// What a parser finds in a text: the imported modules and the functions.
#[verifier::ext_equal]
pub struct ParseView {
    pub imports: Seq<Seq<char>>,
    pub functions: Seq<FunctionView>,
}

/// The view of a parser's result.
pub open spec fn parse_view(r: (Vec<String>, Vec<FunctionNode>)) -> ParseView {
    ParseView { imports: str_views(r.0@), functions: fn_views(r.1@) }
}

// ------------------------------------------------------------------
// Function calls
// ------------------------------------------------------------------

/// Whether `c` may stand in an identifier: alphanumeric or `_`.
pub open spec fn word_char(c: char) -> bool {
    alnum_char(c) || c == '_'
}

/// The run of identifier characters at the end of `s`.
pub open spec fn trailing_word(s: Seq<char>) -> Seq<char>
    decreases s.len(),
{
    if s.len() > 0 && word_char(s.last()) {
        trailing_word(s.drop_last()).push(s.last())
    } else {
        Seq::empty()
    }
}

/// The called names of line `t`, in the order they occur: every non-empty
/// run of identifier characters directly followed by `(`.
pub open spec fn call_names(t: Seq<char>) -> Seq<Seq<char>>
    decreases t.len(),
{
    if t.len() == 0 {
        Seq::empty()
    } else {
        let prev = call_names(t.drop_last());
        let w = trailing_word(t.drop_last());
        if t.last() == '(' && w.len() > 0 {
            prev.push(w)
        } else {
            prev
        }
    }
}

/// `calls` extended, in order, with the names of `names` that it does not
/// hold yet.
pub open spec fn add_calls(calls: Seq<Seq<char>>, names: Seq<Seq<char>>) -> Seq<Seq<char>>
    decreases names.len(),
{
    if names.len() == 0 {
        calls
    } else {
        let c = add_calls(calls, names.drop_last());
        if c.contains(names.last()) {
            c
        } else {
            c.push(names.last())
        }
    }
}

/// Adds to `calls` the called names of `line` that it does not hold yet.
fn collect_calls(line: &[char], calls: &mut Vec<String>)
    ensures
        str_views(final(calls)@) == add_calls(str_views(old(calls)@), call_names(line@)),
{
    let ghost c0 = str_views(calls@);
    let mut cur: Vec<char> = Vec::new();
    let mut i: usize = 0;
    assert(line@.take(0) =~= Seq::<char>::empty());
    assert(cur@ =~= trailing_word(line@.take(0)));
    while i < line.len()
        invariant
            c0 == str_views(old(calls)@),
            i <= line@.len(),
            cur@ == trailing_word(line@.take(i as int)),
            str_views(calls@) == add_calls(c0, call_names(line@.take(i as int))),
        decreases line@.len() - i,
    {
        let c = line[i];
        let ghost pre = line@.take(i as int);
        let ghost names = call_names(pre);
        assert(line@.take(i + 1).drop_last() =~= pre);
        assert(line@.take(i + 1).last() == c);
        if is_alphanumeric(c) || c == '_' {
            cur.push(c);
            assert(call_names(line@.take(i + 1)) == names);
        } else {
            if c == '(' && cur.len() > 0 {
                let name = string_of(&cur);
                assert(call_names(line@.take(i + 1)) == names.push(cur@));
                assert(names.push(cur@).drop_last() =~= names);
                if !contains_string(calls, &name) {
                    let ghost old_c = calls@;
                    calls.push(name);
                    assert(str_views(calls@) =~= str_views(old_c).push(name@));
                }
            } else {
                assert(call_names(line@.take(i + 1)) == names);
            }
            cur = Vec::new();
            assert(cur@ =~= trailing_word(line@.take(i + 1)));
        }
        i += 1;
    }
    assert(line@.take(line@.len() as int) =~= line@);
}

// ------------------------------------------------------------------
// Rust
// ------------------------------------------------------------------

/// `s` up to the first occurrence of `p` (`s.split(p).next()`).
pub open spec fn before_first(s: Seq<char>, p: Seq<char>) -> Seq<char> {
    match find(s, p) {
        Some(i) => s.take(i),
        None => s,
    }
}

/// The module that a trimmed Rust line imports, if any: the first path
/// segment after `use `, or the name after `mod `.
pub open spec fn rust_import(t: Seq<char>) -> Option<Seq<char>> {
    if "use "@.is_prefix_of(t) {
        Some(before_first(trim_end_char(trim_start_matches(t, "use "@), ';'), "::"@))
    } else if "mod "@.is_prefix_of(t) {
        Some(trim_end_char(trim_end_char(trim_start_matches(t, "mod "@), ';'), '{'))
    } else {
        None
    }
}

/// The imports found in the (untrimmed) Rust lines `lines`.
pub open spec fn rust_imports(lines: Seq<Seq<char>>) -> Seq<Seq<char>>
    decreases lines.len(),
{
    if lines.len() == 0 {
        Seq::empty()
    } else {
        let prev = rust_imports(lines.drop_last());
        match rust_import(trim(lines.last())) {
            Some(m) => prev.push(m),
            None => prev,
        }
    }
}

/// The state of the Rust function scanner between two lines.
pub struct RustScan {
    pub in_fn: bool,
    pub name: Seq<char>,
    pub start: nat,
    pub calls: Seq<Seq<char>>,
    pub points: nat,
    pub depth: int,
    pub functions: Seq<FunctionView>,
}

/// The scanner's state before the first line.
pub open spec fn rust_scan_start() -> RustScan {
    RustScan {
        in_fn: false,
        name: Seq::empty(),
        start: 0,
        calls: Seq::empty(),
        points: 0,
        depth: 0,
        functions: Seq::empty(),
    }
}

/// The scanner's state after line number `n`, trimmed to `t`.
///
/// A line that starts with `fn ` outside a function opens one, named by
/// the text before the first `(`; brace counts then track its body, which
/// ends on the line where the depth falls back to zero or below.  A
/// function whose braces open and close on its first line ends there.
/// The calls of a function are those of the lines after its `fn` line; its
/// complexity is `1` plus the decision points of all its lines.
pub open spec fn rust_step(st: RustScan, n: nat, t: Seq<char>) -> RustScan {
    let opens = count_matches(t, seq!['{']) as int;
    let closes = count_matches(t, seq!['}']) as int;
    if !st.in_fn && "fn "@.is_prefix_of(t) {
        let rest = t.skip(3);
        let name = match find(rest, seq!['(']) {
            Some(p) => trim(rest.take(p)),
            None => st.name,
        };
        let depth = opens - closes;
        let points = decision_points(t);
        if opens > 0 && depth <= 0 {
            RustScan {
                in_fn: false,
                name,
                start: n,
                calls: Seq::empty(),
                points,
                depth,
                functions: st.functions.push(
                    FunctionView {
                        name,
                        start_line: n,
                        end_line: n,
                        calls: Seq::empty(),
                        cyclomatic_complexity: 1 + points,
                    },
                ),
            }
        } else {
            RustScan {
                in_fn: true,
                name,
                start: n,
                calls: Seq::empty(),
                points,
                depth,
                functions: st.functions,
            }
        }
    } else if st.in_fn {
        let depth = st.depth + opens - closes;
        let calls = add_calls(st.calls, call_names(t));
        let points = st.points + decision_points(t);
        if depth <= 0 {
            RustScan {
                in_fn: false,
                calls,
                points,
                depth,
                functions: st.functions.push(
                    FunctionView {
                        name: st.name,
                        start_line: st.start,
                        end_line: n,
                        calls,
                        cyclomatic_complexity: 1 + points,
                    },
                ),
                ..st
            }
        } else {
            RustScan { calls, points, depth, ..st }
        }
    } else {
        st
    }
}

/// The scanner's state after the (untrimmed) lines `lines`.
pub open spec fn rust_scan(lines: Seq<Seq<char>>) -> RustScan
    decreases lines.len(),
{
    if lines.len() == 0 {
        rust_scan_start()
    } else {
        rust_step(rust_scan(lines.drop_last()), lines.len(), trim(lines.last()))
    }
}

/// What the Rust parser finds in `content`.
pub open spec fn rust_parse(content: Seq<char>) -> ParseView {
    ParseView {
        imports: rust_imports(lines_of(content)),
        functions: rust_scan(lines_of(content)).functions,
    }
}

/// When a line reports a function, the scanner is outside any function
/// after it: the next `fn ` line opens a new function.
pub proof fn law_rust_reported_function_closes(lines: Seq<Seq<char>>)
    requires
        lines.len() > 0,
        rust_scan(lines).functions.len() != rust_scan(lines.drop_last()).functions.len(),
    ensures
        !rust_scan(lines).in_fn,
        rust_scan(lines).functions.len() == rust_scan(lines.drop_last()).functions.len() + 1,
        rust_scan(lines).functions.last().end_line == lines.len(),
{
}

/// A `fn name(` line met outside a function opens a function named `name`
/// that starts on that line: either it is still open after the line, or
/// it is reported as a one-line function; no earlier function changes.
pub proof fn law_rust_fn_line_opens_function(lines: Seq<Seq<char>>, l: Seq<char>, p: int)
    requires
        !rust_scan(lines).in_fn,
        "fn "@.is_prefix_of(trim(l)),
        find(trim(l).skip(3), seq!['(']) == Some(p),
    ensures
        ({
            let st = rust_scan(lines.push(l));
            let name = trim(trim(l).skip(3).take(p));
            if st.in_fn {
                &&& st.name == name
                &&& st.start == lines.len() + 1
                &&& st.calls.len() == 0
                &&& st.functions == rust_scan(lines).functions
            } else {
                &&& st.functions.len() == rust_scan(lines).functions.len() + 1
                &&& st.functions.drop_last() == rust_scan(lines).functions
                &&& st.functions.last().name == name
                &&& st.functions.last().start_line == lines.len() + 1
                &&& st.functions.last().end_line == lines.len() + 1
            }
        }),
{
    assert(lines.push(l).drop_last() =~= lines);
    let st = rust_scan(lines.push(l));
    if !st.in_fn {
        assert(st.functions.drop_last() =~= rust_scan(lines).functions);
    }
}

/// An open function is reported under the name and first line it was
/// opened with, ending on the line that closes it; earlier functions stay.
pub proof fn law_rust_open_function_reported_as_opened(lines: Seq<Seq<char>>, l: Seq<char>)
    requires
        rust_scan(lines).in_fn,
        rust_scan(lines.push(l)).functions.len() != rust_scan(lines).functions.len(),
    ensures
        ({
            let st = rust_scan(lines.push(l));
            &&& st.functions.drop_last() == rust_scan(lines).functions
            &&& st.functions.last().name == rust_scan(lines).name
            &&& st.functions.last().start_line == rust_scan(lines).start
            &&& st.functions.last().end_line == lines.len() + 1
            &&& !st.in_fn
        }),
{
    assert(lines.push(l).drop_last() =~= lines);
    assert(rust_scan(lines.push(l)).functions.drop_last() =~= rust_scan(lines).functions);
}

/// The number of times `c` occurs in `t`, bounded by the length of `t`.
fn count_char(t: &[char], c: char) -> (r: usize)
    ensures
        r == count_matches(t@, seq![c]),
        r <= t@.len(),
{
    let p = vec![c];
    assert(p@ =~= seq![c]);
    let r = count_matches_exec(t, &p);
    proof {
        lemma_count_matches_bound(t@, seq![c]);
    }
    r
}

impl CodeMapper {
    /// Imports (`use` and `mod` lines) and functions (`fn` lines and the
    /// brace-delimited bodies that follow) of a Rust source text.
    pub fn parse_rust(content: &str, _path: &str) -> (r: (Vec<String>, Vec<FunctionNode>))
        requires
            content@.len() <= MAX_TEXT_CHARS,
        ensures
            parse_view(r) == rust_parse(content@),
    {
        let text = chars_of(content);
        let lines = lines_exec(&text);
        let ghost lv = char_views(lines@);
        proof {
            lemma_lines_total(content@);
        }
        let mut imports: Vec<String> = Vec::new();
        let mut functions: Vec<FunctionNode> = Vec::new();
        let mut in_fn = false;
        let mut fn_name: Vec<char> = Vec::new();
        let mut fn_start: usize = 0;
        let mut fn_calls: Vec<String> = Vec::new();
        let mut fn_points: usize = 0;
        let mut brace_depth: i32 = 0;
        let mut line_no: usize = 0;
        let paren = vec!['('];
        assert(paren@ =~= seq!['(']);
        assert(lv.take(0) =~= Seq::<Seq<char>>::empty());
        assert(str_views(imports@) =~= Seq::<Seq<char>>::empty());
        assert(str_views(fn_calls@) =~= Seq::<Seq<char>>::empty());
        assert(fn_views(functions@) =~= Seq::<FunctionView>::empty());
        assert(fn_name@ =~= Seq::<char>::empty());
        proof {
            reveal_strlit("fn ");
        }
        while line_no < lines.len()
            invariant
                lv == char_views(lines@),
                lv == lines_of(content@),
                total_len(lv) <= MAX_TEXT_CHARS,
                paren@ == seq!['('],
                line_no <= lines@.len(),
                str_views(imports@) == rust_imports(lv.take(line_no as int)),
                rust_scan(lv.take(line_no as int)) == (RustScan {
                    in_fn,
                    name: fn_name@,
                    start: fn_start as nat,
                    calls: str_views(fn_calls@),
                    points: fn_points as nat,
                    depth: brace_depth as int,
                    functions: fn_views(functions@),
                }),
                fn_points <= 3 * total_len(lv.take(line_no as int)),
                -(total_len(lv.take(line_no as int)) as int) <= brace_depth <= total_len(
                    lv.take(line_no as int),
                ),
            decreases lines@.len() - line_no,
        {
            let ghost prev_take = lv.take(line_no as int);
            assert(lv.take(line_no + 1).drop_last() =~= prev_take);
            assert(lv[line_no as int] == lines@[line_no as int]@);
            proof {
                lemma_total_len_take(lv, line_no + 1);
                lemma_trim_by_len(lv[line_no as int], white_class());
            }
            let trimmed = trim_white(&lines[line_no]);
            line_no += 1;
            // imports
            if starts_with_text(&trimmed, "use ") {
                let rest = trim_end_char_exec(&trim_start_matches_exec(&trimmed, &chars_of("use ")), ';');
                let sep = chars_of("::");
                let module = match find_exec(&rest, &sep, 0) {
                    Some(i) => copy_range(&rest, 0, i),
                    None => copy_range(&rest, 0, rest.len()),
                };
                assert(module@ =~= before_first(rest@, "::"@));
                let ghost old_i = imports@;
                imports.push(string_of(&module));
                assert(str_views(imports@) =~= str_views(old_i).push(module@));
            } else if starts_with_text(&trimmed, "mod ") {
                let name = trim_end_char_exec(
                    &trim_end_char_exec(&trim_start_matches_exec(&trimmed, &chars_of("mod ")), ';'),
                    '{',
                );
                let ghost old_i = imports@;
                imports.push(string_of(&name));
                assert(str_views(imports@) =~= str_views(old_i).push(name@));
            }
            // functions
            let opens = count_char(&trimmed, '{');
            let closes = count_char(&trimmed, '}');
            proof {
                lemma_decision_points_bound(trimmed@);
            }
            if !in_fn && starts_with_text(&trimmed, "fn ") {
                in_fn = true;
                brace_depth = 0;
                proof {
                    reveal_strlit("fn ");
                }
                let after = copy_range(&trimmed, 3, trimmed.len());
                assert(after@ =~= trimmed@.skip(3));
                match find_exec(&after, &paren, 0) {
                    Some(p) => {
                        fn_name = trim_white(&copy_range(&after, 0, p));
                        assert(after@.subrange(0, p as int) =~= after@.take(p as int));
                    },
                    None => {},
                }
                fn_start = line_no;
                fn_calls = Vec::new();
                fn_points = CodeMapper::cyclomatic_complexity_approx(&trimmed) - 1;
                brace_depth += opens as i32;
                brace_depth -= closes as i32;
                if opens > 0 && brace_depth <= 0 {
                    // a body that opens and closes on the signature line
                    in_fn = false;
                    let ghost old_f = functions@;
                    let f = FunctionNode {
                        name: string_of(&fn_name),
                        start_line: fn_start,
                        end_line: line_no,
                        calls: Vec::new(),
                        cyclomatic_complexity: 1 + fn_points,
                    };
                    assert(str_views(f.calls@) =~= Seq::<Seq<char>>::empty());
                    functions.push(f);
                    assert(fn_views(functions@) =~= fn_views(old_f).push(f@));
                }
                assert(str_views(fn_calls@) =~= Seq::<Seq<char>>::empty());
            } else if in_fn {
                brace_depth += opens as i32;
                brace_depth -= closes as i32;
                collect_calls(&trimmed, &mut fn_calls);
                fn_points = fn_points + (CodeMapper::cyclomatic_complexity_approx(&trimmed) - 1);
                if brace_depth <= 0 {
                    in_fn = false;
                    let ghost old_f = functions@;
                    let f = FunctionNode {
                        name: string_of(&fn_name),
                        start_line: fn_start,
                        end_line: line_no,
                        calls: crate::model::clone_strings(&fn_calls),
                        cyclomatic_complexity: 1 + fn_points,
                    };
                    functions.push(f);
                    assert(fn_views(functions@) =~= fn_views(old_f).push(f@));
                }
            }
        }
        assert(lv.take(lines@.len() as int) =~= lv);
        (imports, functions)
    }
}


// ------------------------------------------------------------------
// Python
// ------------------------------------------------------------------

/// The parse results `a` followed by the parse results `b`.
pub open spec fn join(a: ParseView, b: ParseView) -> ParseView {
    ParseView { imports: a.imports + b.imports, functions: a.functions + b.functions }
}

/// Nothing found.
pub open spec fn nothing() -> ParseView {
    ParseView { imports: Seq::empty(), functions: Seq::empty() }
}

/// Whether the line `l` is outside a block indented deeper than `base`:
/// it is not blank and not indented more than `base`.
pub open spec fn py_ends_block(l: Seq<char>, base: nat) -> bool {
    trim(l).len() > 0 && indent_of(l) <= base
}

/// The index of the first line at or after `j` that ends a block indented
/// deeper than `base`, or the number of lines.
pub open spec fn py_block_end(lines: Seq<Seq<char>>, j: nat, base: nat) -> nat
    decreases lines.len() - j,
{
    if j >= lines.len() {
        lines.len()
    } else if py_ends_block(lines[j as int], base) {
        j
    } else {
        py_block_end(lines, j + 1, base)
    }
}

pub proof fn lemma_py_block_end_bounds(lines: Seq<Seq<char>>, j: nat, base: nat)
    ensures
        j >= lines.len() ==> py_block_end(lines, j, base) == lines.len(),
        j < lines.len() ==> j <= py_block_end(lines, j, base) <= lines.len(),
    decreases lines.len() - j,
{
    if j < lines.len() && !py_ends_block(lines[j as int], base) {
        lemma_py_block_end_bounds(lines, j + 1, base);
    }
}

pub proof fn lemma_py_block_end_props(lines: Seq<Seq<char>>, j: nat, base: nat)
    ensures
        forall|m: int| j <= m < py_block_end(lines, j, base) ==> !py_ends_block(#[trigger] lines[m], base),
        py_block_end(lines, j, base) < lines.len() ==> py_ends_block(lines[py_block_end(lines, j, base) as int], base),
    decreases lines.len() - j,
{
    if j < lines.len() && !py_ends_block(lines[j as int], base) {
        lemma_py_block_end_props(lines, j + 1, base);
    }
}

/// A Python function's body is the block below its `def` line: the
/// function found on the `def` line `d` (its first line is `d + 1`, counted
/// from one) spans the following lines that are blank or indented deeper
/// than line `d`, and the line after its end, if any, is a non-blank line
/// indented no deeper than line `d`.
pub proof fn law_python_body_is_the_deeper_block(lines: Seq<Seq<char>>, i: nat, k: int)
    requires
        0 <= k < py_parse(lines, i).functions.len(),
    ensures
        ({
            let f = py_parse(lines, i).functions[k];
            let d = f.start_line - 1;
            &&& f.start_line >= 1
            &&& i <= d < lines.len()
            &&& "def "@.is_prefix_of(trim(lines[d]))
            &&& f.start_line <= f.end_line <= lines.len()
            &&& forall|m: int|
                f.start_line <= m < f.end_line ==> trim(#[trigger] lines[m]).len() == 0 || indent_of(lines[m])
                    > indent_of(lines[d])
            &&& f.end_line < lines.len() ==> trim(lines[f.end_line as int]).len() > 0 && indent_of(
                lines[f.end_line as int],
            ) <= indent_of(lines[d])
        }),
    decreases lines.len() - i,
{
    if i < lines.len() {
        let t = trim(lines[i as int]);
        if "import "@.is_prefix_of(t) || "from "@.is_prefix_of(t) {
            law_python_body_is_the_deeper_block(lines, i + 1, k);
        } else if "def "@.is_prefix_of(t) && find(t.skip(4), seq!['(']) is Some {
            let base = indent_of(lines[i as int]);
            let j = py_block_end(lines, i + 1, base);
            lemma_py_block_end_bounds(lines, i + 1, base);
            lemma_py_block_end_props(lines, i + 1, base);
            if k > 0 {
                law_python_body_is_the_deeper_block(lines, j, k - 1);
            }
        } else {
            law_python_body_is_the_deeper_block(lines, i + 1, k);
        }
    }
}

/// The called names found in the lines `from..to`.
pub open spec fn py_calls(lines: Seq<Seq<char>>, from: nat, to: nat) -> Seq<Seq<char>>
    decreases to,
{
    if to <= from {
        Seq::empty()
    } else {
        add_calls(py_calls(lines, from, (to - 1) as nat), call_names(lines[to - 1]))
    }
}

/// The module that an `import` or `from` line names: its second word.
pub open spec fn py_import(t: Seq<char>) -> Option<Seq<char>> {
    if split_whitespace(t).len() > 1 {
        Some(split_whitespace(t)[1])
    } else {
        None
    }
}

/// What the Python parser finds from line index `i` on.
///
/// `import m` and `from m ...` import `m`; `def name(` opens a function
/// whose body is the following lines indented deeper than the `def` (blank
/// lines included); lines inside a body are read only for calls.
pub open spec fn py_parse(lines: Seq<Seq<char>>, i: nat) -> ParseView
    decreases lines.len() - i,
{
    if i >= lines.len() {
        nothing()
    } else {
        let t = trim(lines[i as int]);
        if "import "@.is_prefix_of(t) || "from "@.is_prefix_of(t) {
            let rest = py_parse(lines, i + 1);
            match py_import(t) {
                Some(m) => ParseView { imports: seq![m] + rest.imports, functions: rest.functions },
                None => rest,
            }
        } else if "def "@.is_prefix_of(t) && find(t.skip(4), seq!['(']) is Some {
            let p = find(t.skip(4), seq!['('])->0;
            let j = py_block_end(lines, i + 1, indent_of(lines[i as int]));
            proof {
                lemma_py_block_end_bounds(lines, i + 1, indent_of(lines[i as int]));
            }
            let f = FunctionView {
                name: trim(t.skip(4).take(p)),
                start_line: i + 1,
                end_line: j,
                calls: py_calls(lines, i + 1, j),
                cyclomatic_complexity: 1,
            };
            let rest = py_parse(lines, j);
            ParseView { imports: rest.imports, functions: seq![f] + rest.functions }
        } else {
            py_parse(lines, i + 1)
        }
    }
}

/// What the Python parser finds in `content`.
pub open spec fn python_parse(content: Seq<char>) -> ParseView {
    py_parse(lines_of(content), 0)
}

/// Whether line `l` ends a block indented deeper than `base`.
fn ends_block(l: &[char], base: usize) -> (r: bool)
    ensures
        r == py_ends_block(l@, base as nat),
{
    let indent = indent_width(l);
    trim_white(l).len() != 0 && indent <= base
}

/// The parse results found so far.
spec fn found(imports: Seq<String>, functions: Seq<FunctionNode>) -> ParseView {
    ParseView { imports: str_views(imports), functions: fn_views(functions) }
}

impl CodeMapper {
    /// Imports (`import` and `from` lines) and functions (`def` lines and
    /// their indented bodies) of a Python source text.
    pub fn parse_python(content: &str) -> (r: (Vec<String>, Vec<FunctionNode>))
        ensures
            parse_view(r) == python_parse(content@),
    {
        let text = chars_of(content);
        let lines = lines_exec(&text);
        let ghost lv = char_views(lines@);
        let mut imports: Vec<String> = Vec::new();
        let mut functions: Vec<FunctionNode> = Vec::new();
        let paren = vec!['('];
        assert(paren@ =~= seq!['(']);
        let mut i: usize = 0;
        assert(found(imports@, functions@) =~= nothing());
        assert(join(nothing(), py_parse(lv, 0)) =~= py_parse(lv, 0));
        while i < lines.len()
            invariant
                lv == char_views(lines@),
                lv == lines_of(content@),
                paren@ == seq!['('],
                i <= lines@.len(),
                join(found(imports@, functions@), py_parse(lv, i as nat)) == py_parse(lv, 0),
            decreases lines@.len() - i,
        {
            assert(lv[i as int] == lines@[i as int]@);
            let ghost here = py_parse(lv, i as nat);
            let ghost before = found(imports@, functions@);
            let line = &lines[i];
            let trimmed = trim_white(line);
            if starts_with_text(&trimmed, "import ") || starts_with_text(&trimmed, "from ") {
                match second_word(&trimmed) {
                    Some(part) => {
                        let ghost old_i = imports@;
                        imports.push(string_of(&part));
                        assert(str_views(imports@) =~= str_views(old_i).push(part@));
                        assert(join(found(imports@, functions@), py_parse(lv, (i + 1) as nat)) =~= join(
                            before,
                            here,
                        ));
                    },
                    None => {},
                }
                i += 1;
            } else if starts_with_text(&trimmed, "def ") {
                proof {
                    reveal_strlit("def ");
                }
                let def_line = copy_range(&trimmed, 4, trimmed.len());
                assert(def_line@ =~= trimmed@.skip(4));
                match find_exec(&def_line, &paren, 0) {
                    Some(p) => {
                        let fname = string_of(&trim_white(&copy_range(&def_line, 0, p)));
                        assert(def_line@.subrange(0, p as int) =~= def_line@.take(p as int));
                        let start = i + 1;
                        let base_indent = indent_width(line);
                        let mut calls: Vec<String> = Vec::new();
                        i += 1;
                        assert(str_views(calls@) =~= py_calls(lv, start as nat, i as nat));
                        while i < lines.len() && !ends_block(&lines[i], base_indent)
                            invariant
                                lv == char_views(lines@),
                                start <= i <= lines@.len(),
                                py_block_end(lv, start as nat, base_indent as nat) == py_block_end(
                                    lv,
                                    i as nat,
                                    base_indent as nat,
                                ),
                                str_views(calls@) == py_calls(lv, start as nat, i as nat),
                            decreases lines@.len() - i,
                        {
                            assert(lv[i as int] == lines@[i as int]@);
                            collect_calls(&lines[i], &mut calls);
                            i += 1;
                        }
                        proof {
                            if i < lines@.len() {
                                assert(lv[i as int] == lines@[i as int]@);
                            }
                        }
                        let ghost old_f = functions@;
                        let f = FunctionNode {
                            name: fname,
                            start_line: start,
                            end_line: i,
                            calls,
                            cyclomatic_complexity: 1,
                        };
                        functions.push(f);
                        assert(fn_views(functions@) =~= fn_views(old_f).push(f@));
                        assert(join(found(imports@, functions@), py_parse(lv, i as nat)) =~= join(
                            before,
                            here,
                        ));
                    },
                    None => {
                        i += 1;
                    },
                }
            } else {
                i += 1;
            }
        }
        (imports, functions)
    }
}


// ------------------------------------------------------------------
// JavaScript / TypeScript
// ------------------------------------------------------------------

/// `Some(x)` as a one-element sequence, `None` as the empty one.
pub open spec fn opt_seq<T>(o: Option<T>) -> Seq<T> {
    match o {
        Some(x) => seq![x],
        None => Seq::empty(),
    }
}

/// A function found on line `n` alone, with no calls recorded.
pub open spec fn one_line_function(name: Seq<char>, n: nat) -> FunctionView {
    FunctionView {
        name,
        start_line: n,
        end_line: n,
        calls: Seq::empty(),
        cyclomatic_complexity: 1,
    }
}

/// The module named in `require(...)` on line `t`, quotes removed.
pub open spec fn js_require(t: Seq<char>) -> Option<Seq<char>> {
    match find(t, "require("@) {
        Some(st) => match find(t.skip(st + 8), seq![')']) {
            Some(e) => Some(trim_by(t.subrange(st + 8, st + 8 + e), set_class(seq!['"', '\'']))),
            None => None,
        },
        None => None,
    }
}

/// The module that a trimmed JavaScript line imports, if any.
pub open spec fn js_import(t: Seq<char>) -> Option<Seq<char>> {
    if "import "@.is_prefix_of(t) {
        match find(t, "from "@) {
            Some(pos) => Some(trim_by(trim(t.skip(pos + 5)), set_class(seq!['"', '\'', ';']))),
            None => if contains(t, "require("@) {
                js_require(t)
            } else {
                None
            },
        }
    } else if "const "@.is_prefix_of(t) && contains(t, "require("@) {
        js_require(t)
    } else {
        None
    }
}

/// The character of the decimal digit `d`.
pub open spec fn digit_char(d: nat) -> char {
    if d == 0 {
        '0'
    } else if d == 1 {
        '1'
    } else if d == 2 {
        '2'
    } else if d == 3 {
        '3'
    } else if d == 4 {
        '4'
    } else if d == 5 {
        '5'
    } else if d == 6 {
        '6'
    } else if d == 7 {
        '7'
    } else if d == 8 {
        '8'
    } else {
        '9'
    }
}

/// The decimal digits of `n`, most significant first.
pub open spec fn decimal(n: nat) -> Seq<char>
    decreases n,
{
    if n < 10 {
        seq![digit_char(n)]
    } else {
        decimal(n / 10).push(digit_char(n % 10))
    }
}

/// The label of an anonymous function found on line `n`.
pub open spec fn anon_name(n: nat) -> Seq<char> {
    seq!['a', 'n', 'o', 'n', '_'] + decimal(n)
}

fn digit_exec(d: usize) -> (c: char)
    requires
        d < 10,
    ensures
        c == digit_char(d as nat),
{
    if d == 0 {
        '0'
    } else if d == 1 {
        '1'
    } else if d == 2 {
        '2'
    } else if d == 3 {
        '3'
    } else if d == 4 {
        '4'
    } else if d == 5 {
        '5'
    } else if d == 6 {
        '6'
    } else if d == 7 {
        '7'
    } else if d == 8 {
        '8'
    } else {
        '9'
    }
}

/// Appends the decimal digits of `n` to `s`.
fn push_decimal(s: &mut Vec<char>, n: usize)
    ensures
        final(s)@ == old(s)@ + decimal(n as nat),
    decreases n,
{
    if n < 10 {
        s.push(digit_exec(n));
        assert(decimal(n as nat) =~= seq![digit_char(n as nat)]);
    } else {
        let ghost s0 = s@;
        push_decimal(s, n / 10);
        s.push(digit_exec(n % 10));
        assert(s@ =~= s0 + decimal((n / 10) as nat).push(digit_char((n % 10) as nat)));
    }
}

/// `anon_` followed by the decimal digits of `n`.
fn anon_label(n: usize) -> (r: String)
    ensures
        r@ == anon_name(n as nat),
{
    let mut s = vec!['a', 'n', 'o', 'n', '_'];
    push_decimal(&mut s, n);
    string_of(&s)
}

/// The function that trimmed JavaScript line `n` declares, if any: a
/// `function name(` line, or a line with `=>` or `= function`, named by the
/// text before its first `=`.
pub open spec fn js_function(t: Seq<char>, n: nat) -> Option<FunctionView> {
    if "function "@.is_prefix_of(t) {
        match find(t.skip(9), seq!['(']) {
            Some(p) => Some(one_line_function(trim(t.skip(9).take(p)), n)),
            None => None,
        }
    } else if contains(t, "=>"@) || contains(t, "= function"@) {
        let name = match find(t, seq!['=']) {
            Some(eq) => trim(t.take(eq)),
            None => anon_name(n),
        };
        if name.len() > 0 && !"if"@.is_prefix_of(name) && !"for"@.is_prefix_of(name) {
            Some(one_line_function(name, n))
        } else {
            None
        }
    } else {
        None
    }
}

/// What the JavaScript parser finds in the (untrimmed) lines `lines`.
pub open spec fn js_lines(lines: Seq<Seq<char>>) -> ParseView
    decreases lines.len(),
{
    if lines.len() == 0 {
        nothing()
    } else {
        let t = trim(lines.last());
        join(
            js_lines(lines.drop_last()),
            ParseView {
                imports: opt_seq(js_import(t)),
                functions: opt_seq(js_function(t, lines.len())),
            },
        )
    }
}

/// What the JavaScript / TypeScript parser finds in `content`.
pub open spec fn js_parse(content: Seq<char>) -> ParseView {
    js_lines(lines_of(content))
}

/// The module named in `require(...)` on line `t`.
fn js_require_exec(t: &[char]) -> (r: Option<Vec<char>>)
    ensures
        match r {
            Some(m) => js_require(t@) == Some(m@),
            None => js_require(t@) is None,
        },
{
    let req = chars_of("require(");
    let tl = t.len();
    proof {
        reveal_strlit("require(");
    }
    match find_exec(t, &req, 0) {
        Some(start) => {
            let after = copy_range(t, start + 8, tl);
            assert(after@ =~= t@.skip(start + 8));
            let close = vec![')'];
            assert(close@ =~= seq![')']);
            match find_exec(&after, &close, 0) {
                Some(end) => {
                    let quotes = vec!['"', '\''];
                    assert(quotes@ =~= seq!['"', '\'']);
                    let m = trim_set(&copy_range(t, start + 8, start + 8 + end), &quotes);
                    Some(m)
                },
                None => None,
            }
        },
        None => None,
    }
}

impl CodeMapper {
    /// Imports (`import ... from`, `require(...)`) and one-line function
    /// declarations of a JavaScript or TypeScript source text.
    pub fn parse_js_ts(content: &str) -> (r: (Vec<String>, Vec<FunctionNode>))
        ensures
            parse_view(r) == js_parse(content@),
    {
        let text = chars_of(content);
        let lines = lines_exec(&text);
        let ghost lv = char_views(lines@);
        let mut imports: Vec<String> = Vec::new();
        let mut functions: Vec<FunctionNode> = Vec::new();
        let paren = vec!['('];
        assert(paren@ =~= seq!['(']);
        let eq_sign = vec!['='];
        assert(eq_sign@ =~= seq!['=']);
        let mut line_no: usize = 0;
        assert(found(imports@, functions@) =~= js_lines(lv.take(0)));
        while line_no < lines.len()
            invariant
                lv == char_views(lines@),
                lv == lines_of(content@),
                paren@ == seq!['('],
                eq_sign@ == seq!['='],
                line_no <= lines@.len(),
                found(imports@, functions@) == js_lines(lv.take(line_no as int)),
            decreases lines@.len() - line_no,
        {
            assert(lv[line_no as int] == lines@[line_no as int]@);
            assert(lv.take(line_no + 1).drop_last() =~= lv.take(line_no as int));
            let ghost before = found(imports@, functions@);
            let trimmed = trim_white(&lines[line_no]);
            line_no += 1;
            // imports
            let ghost old_i = imports@;
            if starts_with_text(&trimmed, "import ") {
                match find_exec(&trimmed, &chars_of("from "), 0) {
                    Some(pos) => {
                        let tl = trimmed.len();
                        proof {
                            reveal_strlit("from ");
                        }
                        assert(pos + 5 <= tl);
                        let after = copy_range(&trimmed, pos + 5, tl);
                        assert(after@ =~= trimmed@.skip(pos + 5));
                        let set = vec!['"', '\'', ';'];
                        assert(set@ =~= seq!['"', '\'', ';']);
                        let module = trim_set(&trim_white(&after), &set);
                        imports.push(string_of(&module));
                    },
                    None => {
                        if contains_text(&trimmed, "require(") {
                            match js_require_exec(&trimmed) {
                                Some(m) => {
                                    imports.push(string_of(&m));
                                },
                                None => {},
                            }
                        }
                    },
                }
            } else if starts_with_text(&trimmed, "const ") && contains_text(&trimmed, "require(") {
                match js_require_exec(&trimmed) {
                    Some(m) => {
                        imports.push(string_of(&m));
                    },
                    None => {},
                }
            }
            assert(str_views(imports@) =~= str_views(old_i) + opt_seq(js_import(trimmed@)));
            // functions
            let ghost old_f = functions@;
            if starts_with_text(&trimmed, "function ") {
                proof {
                    reveal_strlit("function ");
                }
                let rest = copy_range(&trimmed, 9, trimmed.len());
                assert(rest@ =~= trimmed@.skip(9));
                match find_exec(&rest, &paren, 0) {
                    Some(p) => {
                        assert(rest@.subrange(0, p as int) =~= rest@.take(p as int));
                        let fname = trim_white(&copy_range(&rest, 0, p));
                        let f = FunctionNode {
                            name: string_of(&fname),
                            start_line: line_no,
                            end_line: line_no,
                            calls: Vec::new(),
                            cyclomatic_complexity: 1,
                        };
                        assert(str_views(f.calls@) =~= Seq::<Seq<char>>::empty());
                        functions.push(f);
                    },
                    None => {},
                }
            } else if contains_text(&trimmed, "=>") || contains_text(&trimmed, "= function") {
                let fname: String = match find_exec(&trimmed, &eq_sign, 0) {
                    Some(eq) => {
                        assert(trimmed@.subrange(0, eq as int) =~= trimmed@.take(eq as int));
                        string_of(&trim_white(&copy_range(&trimmed, 0, eq)))
                    },
                    None => anon_label(line_no),
                };
                let name_c = chars_of(fname.as_str());
                if name_c.len() > 0 && !starts_with_text(&name_c, "if") && !starts_with_text(
                    &name_c,
                    "for",
                ) {
                    let f = FunctionNode {
                        name: fname,
                        start_line: line_no,
                        end_line: line_no,
                        calls: Vec::new(),
                        cyclomatic_complexity: 1,
                    };
                    assert(str_views(f.calls@) =~= Seq::<Seq<char>>::empty());
                    functions.push(f);
                }
            }
            assert(fn_views(functions@) =~= fn_views(old_f) + opt_seq(
                js_function(trimmed@, line_no as nat),
            ));
            assert(found(imports@, functions@) =~= js_lines(lv.take(line_no as int)));
        }
        assert(lv.take(lines@.len() as int) =~= lv);
        (imports, functions)
    }
}


// ------------------------------------------------------------------
// MQL5 and C / C++
// ------------------------------------------------------------------

/// The text after the directive `d` on line `t`, with quotes and angle
/// brackets removed at both ends.
pub open spec fn directive_target(t: Seq<char>, d: Seq<char>) -> Seq<char> {
    trim_by(trim_start_matches(t, d), set_class(seq!['"', '<', '>']))
}

/// Whether `name` is a non-empty run of alphanumeric characters and `_`.
pub open spec fn ident_like(name: Seq<char>) -> bool {
    name.len() > 0 && forall|i: int| 0 <= i < name.len() ==> alnum_char(#[trigger] name[i]) || name[i] == '_'
}

/// The function name declared on line `t` after the first type prefix of
/// `prefixes` that it starts with, provided the line holds a `(` (and, with
/// `no_semicolon`, no `;`).  Only the first such prefix is tried.
pub open spec fn declared_function(t: Seq<char>, prefixes: Seq<Seq<char>>, no_semicolon: bool) -> Option<
    Seq<char>,
>
    decreases prefixes.len(),
{
    if prefixes.len() == 0 {
        None
    } else {
        let p = prefixes[0];
        if p.is_prefix_of(t) && contains(t, seq!['(']) && (!no_semicolon || !contains(t, seq![';'])) {
            let after = trim(trim_start_matches(t, p));
            match find(after, seq!['(']) {
                Some(k) => if ident_like(trim(after.take(k))) {
                    Some(trim(after.take(k)))
                } else {
                    None
                },
                None => None,
            }
        } else {
            declared_function(t, prefixes.drop_first(), no_semicolon)
        }
    }
}

/// A function known by name only.
pub open spec fn named_function(name: Seq<char>) -> FunctionView {
    FunctionView {
        name,
        start_line: 0,
        end_line: 0,
        calls: Seq::empty(),
        cyclomatic_complexity: 1,
    }
}

/// The return types that open an MQL5 function declaration.
pub open spec fn mql5_types() -> Seq<Seq<char>> {
    seq!["void "@, "int "@, "double "@, "bool "@, "string "@, "datetime "@]
}

/// The return types that open a C function declaration.
pub open spec fn c_types() -> Seq<Seq<char>> {
    seq![
        "void "@,
        "int "@,
        "double "@,
        "float "@,
        "char "@,
        "bool "@,
        "long "@,
        "short "@,
        "unsigned "@,
        "struct "@,
    ]
}

/// The file that a trimmed MQL5 line includes or imports, if any.
pub open spec fn mql5_import(t: Seq<char>) -> Option<Seq<char>> {
    if "#include "@.is_prefix_of(t) {
        Some(directive_target(t, "#include "@))
    } else if "#import "@.is_prefix_of(t) {
        Some(directive_target(t, "#import "@))
    } else {
        None
    }
}

/// The file that a trimmed C line includes, if any.
pub open spec fn c_import(t: Seq<char>) -> Option<Seq<char>> {
    if "#include "@.is_prefix_of(t) {
        Some(directive_target(t, "#include "@))
    } else {
        None
    }
}

/// What the MQL5 (`c_family == false`) or C (`c_family == true`) parser
/// finds in the (untrimmed) lines `lines`.
pub open spec fn decl_lines(lines: Seq<Seq<char>>, c_family: bool) -> ParseView
    decreases lines.len(),
{
    if lines.len() == 0 {
        nothing()
    } else {
        let t = trim(lines.last());
        let import = if c_family {
            c_import(t)
        } else {
            mql5_import(t)
        };
        let types = if c_family {
            c_types()
        } else {
            mql5_types()
        };
        let f = match declared_function(t, types, c_family) {
            Some(n) => Some(named_function(n)),
            None => None,
        };
        join(
            decl_lines(lines.drop_last(), c_family),
            ParseView { imports: opt_seq(import), functions: opt_seq(f) },
        )
    }
}

/// What the MQL5 parser finds in `content`.
pub open spec fn mql5_parse(content: Seq<char>) -> ParseView {
    decl_lines(lines_of(content), false)
}

/// What the C / C++ parser finds in `content`.
pub open spec fn c_parse(content: Seq<char>) -> ParseView {
    decl_lines(lines_of(content), true)
}

/// The character vectors of the literals `lits`.
fn literal_list(lits: &[&str]) -> (r: Vec<Vec<char>>)
    ensures
        char_views(r@) == lits@.map_values(|l: &str| l@),
{
    let mut r: Vec<Vec<char>> = Vec::new();
    let mut i: usize = 0;
    while i < lits.len()
        invariant
            i <= lits@.len(),
            char_views(r@) == lits@.map_values(|l: &str| l@).take(i as int),
        decreases lits@.len() - i,
    {
        let c = chars_of(lits[i]);
        let ghost old_r = r@;
        r.push(c);
        assert(char_views(r@) =~= char_views(old_r).push(c@));
        assert(c@ == lits@.map_values(|l: &str| l@)[i as int]);
        assert(char_views(r@) =~= lits@.map_values(|l: &str| l@).take(i + 1));
        i += 1;
    }
    assert(lits@.map_values(|l: &str| l@).take(lits@.len() as int) =~= lits@.map_values(
        |l: &str| l@,
    ));
    r
}

/// Whether `name` is a non-empty run of alphanumeric characters and `_`.
fn ident_like_exec(name: &[char]) -> (r: bool)
    ensures
        r == ident_like(name@),
{
    if name.len() == 0 {
        return false;
    }
    let mut i: usize = 0;
    while i < name.len()
        invariant
            i <= name@.len(),
            forall|j: int| 0 <= j < i ==> alnum_char(#[trigger] name@[j]) || name@[j] == '_',
        decreases name@.len() - i,
    {
        if !(is_alphanumeric(name[i]) || name[i] == '_') {
            return false;
        }
        i += 1;
    }
    true
}

/// The function name declared on line `t` after one of the type prefixes.
fn declared_function_exec(t: &[char], prefixes: &Vec<Vec<char>>, no_semicolon: bool) -> (r: Option<
    Vec<char>,
>)
    ensures
        match r {
            Some(n) => declared_function(t@, char_views(prefixes@), no_semicolon) == Some(n@),
            None => declared_function(t@, char_views(prefixes@), no_semicolon) is None,
        },
{
    let ghost pv = char_views(prefixes@);
    let paren = vec!['('];
    assert(paren@ =~= seq!['(']);
    let semi = vec![';'];
    assert(semi@ =~= seq![';']);
    let mut k: usize = 0;
    assert(pv.skip(0) =~= pv);
    while k < prefixes.len()
        invariant
            pv == char_views(prefixes@),
            paren@ == seq!['('],
            semi@ == seq![';'],
            k <= prefixes@.len(),
            declared_function(t@, pv, no_semicolon) == declared_function(
                t@,
                pv.skip(k as int),
                no_semicolon,
            ),
        decreases prefixes@.len() - k,
    {
        let ghost rest = pv.skip(k as int);
        assert(rest[0] == prefixes@[k as int]@);
        assert(rest.drop_first() =~= pv.skip(k + 1));
        let p = &prefixes[k];
        if starts_with(t, p) && contains_exec(t, &paren) && (!no_semicolon || !contains_exec(
            t,
            &semi,
        )) {
            let after = trim_white(&trim_start_matches_exec(t, p));
            match find_exec(&after, &paren, 0) {
                Some(i) => {
                    let name = trim_white(&copy_range(&after, 0, i));
                    assert(after@.subrange(0, i as int) =~= after@.take(i as int));
                    if ident_like_exec(&name) {
                        return Some(name);
                    } else {
                        return None;
                    }
                },
                None => {
                    return None;
                },
            }
        }
        k += 1;
    }
    None
}

/// The imports and declared functions of an MQL5 (`c_family == false`) or
/// C (`c_family == true`) source text.
fn parse_declarations(content: &str, c_family: bool) -> (r: (Vec<String>, Vec<FunctionNode>))
    ensures
        parse_view(r) == decl_lines(lines_of(content@), c_family),
{
    let text = chars_of(content);
    let lines = lines_exec(&text);
    let ghost lv = char_views(lines@);
    let types = if c_family {
        let r = literal_list(
            &[
                "void ",
                "int ",
                "double ",
                "float ",
                "char ",
                "bool ",
                "long ",
                "short ",
                "unsigned ",
                "struct ",
            ],
        );
        r
    } else {
        literal_list(&["void ", "int ", "double ", "bool ", "string ", "datetime "])
    };
    assert(char_views(types@) =~= if c_family {
        c_types()
    } else {
        mql5_types()
    });
    let brackets = vec!['"', '<', '>'];
    assert(brackets@ =~= seq!['"', '<', '>']);
    let incl = chars_of("#include ");
    let import = chars_of("#import ");
    let mut imports: Vec<String> = Vec::new();
    let mut functions: Vec<FunctionNode> = Vec::new();
    let mut i: usize = 0;
    assert(found(imports@, functions@) =~= decl_lines(lv.take(0), c_family));
    while i < lines.len()
        invariant
            lv == char_views(lines@),
            char_views(types@) == (if c_family {
                c_types()
            } else {
                mql5_types()
            }),
            brackets@ == seq!['"', '<', '>'],
            incl@ == "#include "@,
            import@ == "#import "@,
            i <= lines@.len(),
            found(imports@, functions@) == decl_lines(lv.take(i as int), c_family),
        decreases lines@.len() - i,
    {
        assert(lv[i as int] == lines@[i as int]@);
        assert(lv.take(i + 1).drop_last() =~= lv.take(i as int));
        let trimmed = trim_white(&lines[i]);
        let ghost old_i = imports@;
        let ghost old_f = functions@;
        if starts_with(&trimmed, &incl) {
            let rest = trim_set(&trim_start_matches_exec(&trimmed, &incl), &brackets);
            imports.push(string_of(&rest));
        } else if !c_family && starts_with(&trimmed, &import) {
            let rest = trim_set(&trim_start_matches_exec(&trimmed, &import), &brackets);
            imports.push(string_of(&rest));
        }
        match declared_function_exec(&trimmed, &types, c_family) {
            Some(name) => {
                let f = FunctionNode {
                    name: string_of(&name),
                    start_line: 0,
                    end_line: 0,
                    calls: Vec::new(),
                    cyclomatic_complexity: 1,
                };
                assert(str_views(f.calls@) =~= Seq::<Seq<char>>::empty());
                functions.push(f);
            },
            None => {},
        }
        let ghost import_spec = if c_family {
            c_import(trimmed@)
        } else {
            mql5_import(trimmed@)
        };
        assert(str_views(imports@) =~= str_views(old_i) + opt_seq(import_spec));
        assert(found(imports@, functions@) =~= decl_lines(lv.take(i + 1), c_family));
        i += 1;
    }
    assert(lv.take(lines@.len() as int) =~= lv);
    (imports, functions)
}

impl CodeMapper {
    /// Imports (`#include`, `#import`) and declared functions of an MQL5
    /// source text.
    pub fn parse_mql5(content: &str) -> (r: (Vec<String>, Vec<FunctionNode>))
        ensures
            parse_view(r) == mql5_parse(content@),
    {
        parse_declarations(content, false)
    }
}

impl CodeMapper {
    /// Imports (`#include`) and declared functions (a type prefix, a `(`, no
    /// `;`) of a C or C++ source text.
    pub fn parse_c_family(content: &str) -> (r: (Vec<String>, Vec<FunctionNode>))
        ensures
            parse_view(r) == c_parse(content@),
    {
        parse_declarations(content, true)
    }
}


// ------------------------------------------------------------------
// Line ranges of the functions found
// ------------------------------------------------------------------

/// Every function of `fs` starts no later than it ends.
pub open spec fn ranges_ordered(fs: Seq<FunctionView>) -> bool {
    forall|k: int| 0 <= k < fs.len() ==> (#[trigger] fs[k]).start_line <= fs[k].end_line
}

pub proof fn lemma_ranges_push(fs: Seq<FunctionView>, f: FunctionView)
    requires
        ranges_ordered(fs),
        f.start_line <= f.end_line,
    ensures
        ranges_ordered(fs.push(f)),
{
    assert forall|k: int| 0 <= k < fs.push(f).len() implies (#[trigger] fs.push(f)[k]).start_line
        <= fs.push(f)[k].end_line by {
        if k < fs.len() {
            assert(fs.push(f)[k] == fs[k]);
        }
    }
}

pub proof fn lemma_ranges_concat(a: Seq<FunctionView>, b: Seq<FunctionView>)
    requires
        ranges_ordered(a),
        ranges_ordered(b),
    ensures
        ranges_ordered(a + b),
{
    assert forall|k: int| 0 <= k < (a + b).len() implies (#[trigger] (a + b)[k]).start_line <= (a
        + b)[k].end_line by {
        if k < a.len() {
            assert((a + b)[k] == a[k]);
        } else {
            assert((a + b)[k] == b[k - a.len()]);
        }
    }
}

pub proof fn lemma_rust_scan_ranges(lines: Seq<Seq<char>>)
    ensures
        ranges_ordered(rust_scan(lines).functions),
        rust_scan(lines).in_fn ==> rust_scan(lines).start <= lines.len(),
    decreases lines.len(),
{
    if lines.len() > 0 {
        lemma_rust_scan_ranges(lines.drop_last());
        let st = rust_scan(lines.drop_last());
        let n = lines.len();
        let t = trim(lines.last());
        let opens = count_matches(t, seq!['{']) as int;
        let closes = count_matches(t, seq!['}']) as int;
        if !st.in_fn && "fn "@.is_prefix_of(t) {
            if opens > 0 && opens - closes <= 0 {
                let rest = t.skip(3);
                let name = match find(rest, seq!['(']) {
                    Some(p) => trim(rest.take(p)),
                    None => st.name,
                };
                lemma_ranges_push(
                    st.functions,
                    FunctionView {
                        name,
                        start_line: n,
                        end_line: n,
                        calls: Seq::empty(),
                        cyclomatic_complexity: 1 + decision_points(t),
                    },
                );
            }
        } else if st.in_fn {
            let depth = st.depth + opens - closes;
            let calls = add_calls(st.calls, call_names(t));
            if depth <= 0 {
                lemma_ranges_push(
                    st.functions,
                    FunctionView {
                        name: st.name,
                        start_line: st.start,
                        end_line: n,
                        calls,
                        cyclomatic_complexity: 1 + st.points + decision_points(t),
                    },
                );
            }
        }
    }
}

pub proof fn lemma_py_parse_ranges(lines: Seq<Seq<char>>, i: nat)
    ensures
        ranges_ordered(py_parse(lines, i).functions),
    decreases lines.len() - i,
{
    if i < lines.len() {
        let t = trim(lines[i as int]);
        if "import "@.is_prefix_of(t) || "from "@.is_prefix_of(t) {
            lemma_py_parse_ranges(lines, i + 1);
        } else if "def "@.is_prefix_of(t) && find(t.skip(4), seq!['(']) is Some {
            let j = py_block_end(lines, i + 1, indent_of(lines[i as int]));
            lemma_py_block_end_bounds(lines, i + 1, indent_of(lines[i as int]));
            lemma_py_parse_ranges(lines, j);
            let p = find(t.skip(4), seq!['('])->0;
            let f = FunctionView {
                name: trim(t.skip(4).take(p)),
                start_line: i + 1,
                end_line: j,
                calls: py_calls(lines, i + 1, j),
                cyclomatic_complexity: 1,
            };
            lemma_ranges_push(Seq::empty(), f);
            assert(seq![f] =~= Seq::<FunctionView>::empty().push(f));
            lemma_ranges_concat(seq![f], py_parse(lines, j).functions);
        } else {
            lemma_py_parse_ranges(lines, i + 1);
        }
    }
}

pub proof fn lemma_js_lines_ranges(lines: Seq<Seq<char>>)
    ensures
        ranges_ordered(js_lines(lines).functions),
    decreases lines.len(),
{
    if lines.len() > 0 {
        lemma_js_lines_ranges(lines.drop_last());
        let t = trim(lines.last());
        let fs = opt_seq(js_function(t, lines.len()));
        assert(ranges_ordered(fs)) by {
            assert forall|k: int| 0 <= k < fs.len() implies (#[trigger] fs[k]).start_line <= fs[k].end_line by {
            }
        }
        lemma_ranges_concat(js_lines(lines.drop_last()).functions, fs);
    }
}

pub proof fn lemma_decl_lines_ranges(lines: Seq<Seq<char>>, c_family: bool)
    ensures
        ranges_ordered(decl_lines(lines, c_family).functions),
    decreases lines.len(),
{
    if lines.len() > 0 {
        lemma_decl_lines_ranges(lines.drop_last(), c_family);
        let t = trim(lines.last());
        let types = if c_family {
            c_types()
        } else {
            mql5_types()
        };
        let f = match declared_function(t, types, c_family) {
            Some(n) => Some(named_function(n)),
            None => None,
        };
        let fs = opt_seq(f);
        assert(ranges_ordered(fs)) by {
            assert forall|k: int| 0 <= k < fs.len() implies (#[trigger] fs[k]).start_line <= fs[k].end_line by {
            }
        }
        lemma_ranges_concat(decl_lines(lines.drop_last(), c_family).functions, fs);
    }
}

} // verus!
