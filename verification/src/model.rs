//! The values that the analyser produces for files and functions, and
//! their mathematical views.
use vstd::prelude::*;
use crate::text::str_views;

verus! {

/// One function or method found in a source file.
#[derive(Debug, Clone)]
pub struct FunctionNode {
    pub name: String,
    pub start_line: usize,
    pub end_line: usize,
    /// names of the functions it calls
    pub calls: Vec<String>,
    pub cyclomatic_complexity: usize,
}

/// The view of a [`FunctionNode`].
pub struct FunctionView {
    pub name: Seq<char>,
    pub start_line: nat,
    pub end_line: nat,
    pub calls: Seq<Seq<char>>,
    pub cyclomatic_complexity: nat,
}

impl View for FunctionNode {
    type V = FunctionView;

    open spec fn view(&self) -> FunctionView {
        FunctionView {
            name: self.name@,
            start_line: self.start_line as nat,
            end_line: self.end_line as nat,
            calls: str_views(self.calls@),
            cyclomatic_complexity: self.cyclomatic_complexity as nat,
        }
    }
}

/// The views of a sequence of functions.
pub open spec fn fn_views(v: Seq<FunctionNode>) -> Seq<FunctionView> {
    v.map_values(|f: FunctionNode| f@)
}

/// One analysed source file.
#[derive(Debug, Clone)]
pub struct FileNode {
    pub path: String,
    pub language: String,
    pub imports: Vec<String>,
    pub functions: Vec<FunctionNode>,
    pub total_lines: usize,
    pub code_lines: usize,
    pub comment_lines: usize,
    pub blank_lines: usize,
}

/// The view of a [`FileNode`].
pub struct FileView {
    pub path: Seq<char>,
    pub language: Seq<char>,
    pub imports: Seq<Seq<char>>,
    pub functions: Seq<FunctionView>,
    pub total_lines: nat,
    pub code_lines: nat,
    pub comment_lines: nat,
    pub blank_lines: nat,
}

impl View for FileNode {
    type V = FileView;

    open spec fn view(&self) -> FileView {
        FileView {
            path: self.path@,
            language: self.language@,
            imports: str_views(self.imports@),
            functions: fn_views(self.functions@),
            total_lines: self.total_lines as nat,
            code_lines: self.code_lines as nat,
            comment_lines: self.comment_lines as nat,
            blank_lines: self.blank_lines as nat,
        }
    }
}

/// A GitHub issue, reduced to its title and body.
#[derive(Debug, Clone)]
pub struct Issue {
    pub title: String,
    pub body: String,
}

/// A copy of the strings `v`.
pub fn clone_strings(v: &Vec<String>) -> (r: Vec<String>)
    ensures
        str_views(r@) == str_views(v@),
{
    let mut r: Vec<String> = Vec::new();
    let mut i: usize = 0;
    while i < v.len()
        invariant
            i <= v@.len(),
            str_views(r@) == str_views(v@).take(i as int),
        decreases v@.len() - i,
    {
        let s = v[i].clone();
        let ghost old_r = r@;
        r.push(s);
        assert(str_views(r@) =~= str_views(old_r).push(s@));
        assert(str_views(r@) =~= str_views(v@).take(i + 1));
        i += 1;
    }
    assert(str_views(v@).take(v@.len() as int) =~= str_views(v@));
    r
}

} // verus!
