//! Which files the analyser reads, which language each is in, and which
//! parser reads it.
use vstd::prelude::*;
use crate::mapper::CodeMapper;
use crate::metrics::MAX_TEXT_CHARS;
use crate::model::FunctionNode;
use crate::parse::{
    ParseView, parse_view, nothing, rust_parse, python_parse, js_parse, mql5_parse, c_parse,
    ranges_ordered, lemma_rust_scan_ranges, lemma_py_parse_ranges, lemma_js_lines_ranges,
    lemma_decl_lines_ranges,
};
use crate::text::lines_of;
use crate::text::{chars_of, is_text};
use crate::unicode::{path_extension, extension};

verus! {

/// The file extensions that the analyser reads.
pub open spec fn supported_extensions() -> Seq<Seq<char>> {
    seq![
        "rs"@,
        "py"@,
        "js"@,
        "ts"@,
        "jsx"@,
        "tsx"@,
        "mq5"@,
        "c"@,
        "cpp"@,
        "h"@,
        "hpp"@,
    ]
}

/// Whether files with the extension `ext` are read.
pub fn is_supported_extension(ext: &str) -> (r: bool)
    ensures
        r == supported_extensions().contains(ext@),
{
    let e = chars_of(ext);
    let r = is_text(&e, "rs") || is_text(&e, "py") || is_text(&e, "js") || is_text(&e, "ts")
        || is_text(&e, "jsx") || is_text(&e, "tsx") || is_text(&e, "mq5") || is_text(&e, "c")
        || is_text(&e, "cpp") || is_text(&e, "h") || is_text(&e, "hpp");
    proof {
        let s = supported_extensions();
        if r {
            if e@ == "rs"@ { assert(s[0] == e@); }
            if e@ == "py"@ { assert(s[1] == e@); }
            if e@ == "js"@ { assert(s[2] == e@); }
            if e@ == "ts"@ { assert(s[3] == e@); }
            if e@ == "jsx"@ { assert(s[4] == e@); }
            if e@ == "tsx"@ { assert(s[5] == e@); }
            if e@ == "mq5"@ { assert(s[6] == e@); }
            if e@ == "c"@ { assert(s[7] == e@); }
            if e@ == "cpp"@ { assert(s[8] == e@); }
            if e@ == "h"@ { assert(s[9] == e@); }
            if e@ == "hpp"@ { assert(s[10] == e@); }
        } else {
            assert forall|i: int| 0 <= i < s.len() implies s[i] != ext@ by {}
        }
    }
    r
}

/// The language named by a file extension.
pub open spec fn language_of_extension(ext: Option<Seq<char>>) -> Seq<char> {
    match ext {
        Some(e) => if e == "rs"@ {
            "rust"@
        } else if e == "py"@ {
            "python"@
        } else if e == "js"@ || e == "jsx"@ {
            "javascript"@
        } else if e == "ts"@ || e == "tsx"@ {
            "typescript"@
        } else if e == "mq5"@ {
            "mql5"@
        } else if e == "c"@ {
            "c"@
        } else if e == "cpp"@ || e == "cc"@ || e == "cxx"@ {
            "cpp"@
        } else if e == "h"@ || e == "hpp"@ {
            "header"@
        } else {
            "unknown"@
        },
        None => "unknown"@,
    }
}

/// Every extension whose files are read names a language of its family:
/// `rs` Rust, `py` Python, `js` and `jsx` JavaScript, `ts` and `tsx`
/// TypeScript, `mq5` MQL5, `c` C, `cpp` C++, `h` and `hpp` headers; none of
/// them is detected as unknown.
pub proof fn law_read_extensions_have_languages(e: Seq<char>)
    requires
        supported_extensions().contains(e),
    ensures
        language_of_extension(Some(e)) != "unknown"@,
        e == "rs"@ ==> language_of_extension(Some(e)) == "rust"@,
        e == "py"@ ==> language_of_extension(Some(e)) == "python"@,
        e == "js"@ || e == "jsx"@ ==> language_of_extension(Some(e)) == "javascript"@,
        e == "ts"@ || e == "tsx"@ ==> language_of_extension(Some(e)) == "typescript"@,
        e == "mq5"@ ==> language_of_extension(Some(e)) == "mql5"@,
        e == "c"@ ==> language_of_extension(Some(e)) == "c"@,
        e == "cpp"@ ==> language_of_extension(Some(e)) == "cpp"@,
        e == "h"@ || e == "hpp"@ ==> language_of_extension(Some(e)) == "header"@,
{
    reveal_strlit("unknown");
    reveal_strlit("rust");
    reveal_strlit("python");
    reveal_strlit("javascript");
    reveal_strlit("typescript");
    reveal_strlit("mql5");
    reveal_strlit("c");
    reveal_strlit("cpp");
    reveal_strlit("header");
    reveal_strlit("rs");
    reveal_strlit("py");
    reveal_strlit("js");
    reveal_strlit("jsx");
    reveal_strlit("ts");
    reveal_strlit("tsx");
    reveal_strlit("mq5");
    reveal_strlit("h");
    reveal_strlit("hpp");
    reveal_strlit("cc");
    reveal_strlit("cxx");
    let s = supported_extensions();
    let k = choose|k: int| 0 <= k < s.len() && s[k] == e;
    assert(s[0] == "rs"@ && s[1] == "py"@ && s[2] == "js"@ && s[3] == "ts"@ && s[4] == "jsx"@ && s[5] == "tsx"@);
    assert(s[6] == "mq5"@ && s[7] == "c"@ && s[8] == "cpp"@ && s[9] == "h"@ && s[10] == "hpp"@);
    assert("rs"@[0] != "ts"@[0]);
    assert("rs"@[0] != "tsx"@[0]);
    assert("py"@[0] != "rs"@[0]);
    assert("py"@[0] != "ts"@[0]);
    assert("py"@[0] != "tsx"@[0]);
    assert("js"@[0] != "rs"@[0]);
    assert("js"@[0] != "py"@[0]);
    assert("js"@.len() != "jsx"@.len());
    assert("js"@[0] != "ts"@[0]);
    assert("js"@[0] != "tsx"@[0]);
    assert("js"@[0] != "mq5"@[0]);
    assert("jsx"@[0] != "rs"@[0]);
    assert("jsx"@[0] != "py"@[0]);
    assert("jsx"@[0] != "ts"@[0]);
    assert("jsx"@[0] != "tsx"@[0]);
    assert("jsx"@[0] != "mq5"@[0]);
    assert("ts"@.len() != "tsx"@.len());
    assert("mq5"@[0] != "rs"@[0]);
    assert("mq5"@[0] != "py"@[0]);
    assert("mq5"@[0] != "ts"@[0]);
    assert("mq5"@[0] != "tsx"@[0]);
    assert("c"@[0] != "rs"@[0]);
    assert("c"@[0] != "py"@[0]);
    assert("c"@[0] != "js"@[0]);
    assert("c"@[0] != "jsx"@[0]);
    assert("c"@[0] != "ts"@[0]);
    assert("c"@[0] != "tsx"@[0]);
    assert("c"@[0] != "mq5"@[0]);
    assert("c"@.len() != "cpp"@.len());
    assert("c"@.len() != "cc"@.len());
    assert("c"@.len() != "cxx"@.len());
    assert("c"@[0] != "h"@[0]);
    assert("c"@[0] != "hpp"@[0]);
    assert("cpp"@[0] != "rs"@[0]);
    assert("cpp"@[0] != "py"@[0]);
    assert("cpp"@[0] != "js"@[0]);
    assert("cpp"@[0] != "jsx"@[0]);
    assert("cpp"@[0] != "ts"@[0]);
    assert("cpp"@[0] != "tsx"@[0]);
    assert("cpp"@[0] != "mq5"@[0]);
    assert("cpp"@[1] != "cxx"@[1]);
    assert("cpp"@[0] != "h"@[0]);
    assert("cpp"@[0] != "hpp"@[0]);
    assert("cc"@[0] != "rs"@[0]);
    assert("cc"@[0] != "py"@[0]);
    assert("cc"@[0] != "js"@[0]);
    assert("cc"@[0] != "jsx"@[0]);
    assert("cc"@[0] != "ts"@[0]);
    assert("cc"@[0] != "tsx"@[0]);
    assert("cc"@[0] != "mq5"@[0]);
    assert("cc"@.len() != "cpp"@.len());
    assert("cc"@.len() != "cxx"@.len());
    assert("cc"@[0] != "h"@[0]);
    assert("cc"@[0] != "hpp"@[0]);
    assert("cxx"@[0] != "rs"@[0]);
    assert("cxx"@[0] != "py"@[0]);
    assert("cxx"@[0] != "js"@[0]);
    assert("cxx"@[0] != "jsx"@[0]);
    assert("cxx"@[0] != "ts"@[0]);
    assert("cxx"@[0] != "tsx"@[0]);
    assert("cxx"@[0] != "mq5"@[0]);
    assert("cxx"@[0] != "h"@[0]);
    assert("cxx"@[0] != "hpp"@[0]);
    assert("h"@[0] != "rs"@[0]);
    assert("h"@[0] != "py"@[0]);
    assert("h"@[0] != "js"@[0]);
    assert("h"@[0] != "jsx"@[0]);
    assert("h"@[0] != "ts"@[0]);
    assert("h"@[0] != "tsx"@[0]);
    assert("h"@[0] != "mq5"@[0]);
    assert("h"@.len() != "hpp"@.len());
    assert("hpp"@[0] != "rs"@[0]);
    assert("hpp"@[0] != "py"@[0]);
    assert("hpp"@[0] != "js"@[0]);
    assert("hpp"@[0] != "jsx"@[0]);
    assert("hpp"@[0] != "ts"@[0]);
    assert("hpp"@[0] != "tsx"@[0]);
    assert("hpp"@[0] != "mq5"@[0]);
    assert("unknown"@[0] != "rust"@[0]);
    assert("unknown"@[0] != "python"@[0]);
    assert("unknown"@[0] != "javascript"@[0]);
    assert("unknown"@[0] != "typescript"@[0]);
    assert("unknown"@[0] != "mql5"@[0]);
    assert("unknown"@.len() != "c"@.len());
    assert("unknown"@[0] != "cpp"@[0]);
    assert("unknown"@[0] != "header"@[0]);
}

impl CodeMapper {
    /// The language of the file at `path`, from its extension.
    pub fn detect_language(path: &str) -> (r: String)
        ensures
            r@ == language_of_extension(path_extension(path@)),
    {
        match extension(path) {
            Some(ext) => {
                let e = chars_of(ext.as_str());
                if is_text(&e, "rs") {
                    "rust".to_owned()
                } else if is_text(&e, "py") {
                    "python".to_owned()
                } else if is_text(&e, "js") || is_text(&e, "jsx") {
                    "javascript".to_owned()
                } else if is_text(&e, "ts") || is_text(&e, "tsx") {
                    "typescript".to_owned()
                } else if is_text(&e, "mq5") {
                    "mql5".to_owned()
                } else if is_text(&e, "c") {
                    "c".to_owned()
                } else if is_text(&e, "cpp") || is_text(&e, "cc") || is_text(&e, "cxx") {
                    "cpp".to_owned()
                } else if is_text(&e, "h") || is_text(&e, "hpp") {
                    "header".to_owned()
                } else {
                    "unknown".to_owned()
                }
            },
            None => "unknown".to_owned(),
        }
    }
}

/// What the parser for the language `lang` finds in `content`.
pub open spec fn parse_for(content: Seq<char>, lang: Seq<char>) -> ParseView {
    if lang == "rust"@ {
        rust_parse(content)
    } else if lang == "python"@ {
        python_parse(content)
    } else if lang == "javascript"@ || lang == "typescript"@ {
        js_parse(content)
    } else if lang == "mql5"@ {
        mql5_parse(content)
    } else if lang == "c"@ || lang == "cpp"@ || lang == "header"@ {
        c_parse(content)
    } else {
        nothing()
    }
}

impl CodeMapper {
    /// The imports and functions of `content`, read by the parser of `lang`;
    /// nothing for a language without a parser.
    pub fn extract_imports_and_functions(content: &str, lang: &str, path: &str) -> (r: (
        Vec<String>,
        Vec<FunctionNode>,
    ))
        requires
            content@.len() <= MAX_TEXT_CHARS,
        ensures
            parse_view(r) == parse_for(content@, lang@),
    {
        let l = chars_of(lang);
        if is_text(&l, "rust") {
            CodeMapper::parse_rust(content, path)
        } else if is_text(&l, "python") {
            CodeMapper::parse_python(content)
        } else if is_text(&l, "javascript") || is_text(&l, "typescript") {
            CodeMapper::parse_js_ts(content)
        } else if is_text(&l, "mql5") {
            CodeMapper::parse_mql5(content)
        } else if is_text(&l, "c") || is_text(&l, "cpp") || is_text(&l, "header") {
            CodeMapper::parse_c_family(content)
        } else {
            let r: (Vec<String>, Vec<FunctionNode>) = (Vec::new(), Vec::new());
            assert(parse_view(r) =~= nothing());
            r
        }
    }
}


/// Whatever the language, every function that a parser reports starts no
/// later than it ends.
pub proof fn law_functions_start_before_they_end(content: Seq<char>, lang: Seq<char>)
    ensures
        ranges_ordered(parse_for(content, lang).functions),
{
    let lines = lines_of(content);
    lemma_rust_scan_ranges(lines);
    lemma_py_parse_ranges(lines, 0);
    lemma_js_lines_ranges(lines);
    lemma_decl_lines_ranges(lines, true);
    lemma_decl_lines_ranges(lines, false);
    assert(ranges_ordered(nothing().functions)) by {
        assert forall|k: int| 0 <= k < nothing().functions.len() implies (#[trigger] nothing().functions[k]).start_line
            <= nothing().functions[k].end_line by {
        }
    }
}

} // verus!
