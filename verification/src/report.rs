//! The whole-project summary: totals and the results of every analysis.
use vstd::prelude::*;
use crate::mapper::CodeMapper;
use crate::model::FileView;
use crate::cycles::cycle_views;
use crate::text::str_views;

verus! {

/// The summary of an analysis.
#[derive(Debug, Clone)]
pub struct AnalysisReport {
    pub total_files: usize,
    pub total_lines: usize,
    pub total_functions: usize,
    /// files that no file imports
    pub dead_code: Vec<String>,
    /// files that import nothing
    pub orphan_files: Vec<String>,
    /// circular dependencies, each a list of files
    pub circular_deps: Vec<Vec<String>>,
    /// the files with the most imports, with their number of imports
    pub most_connected_files: Vec<(String, usize)>,
}

/// The total number of lines of the files `f`.
pub open spec fn sum_lines(f: Seq<(Seq<char>, FileView)>) -> nat
    decreases f.len(),
{
    if f.len() == 0 {
        0
    } else {
        sum_lines(f.drop_last()) + f.last().1.total_lines
    }
}

/// The total number of functions of the files `f`.
pub open spec fn sum_functions(f: Seq<(Seq<char>, FileView)>) -> nat
    decreases f.len(),
{
    if f.len() == 0 {
        0
    } else {
        sum_functions(f.drop_last()) + f.last().1.functions.len()
    }
}

impl CodeMapper {
    /// The line and function totals fit in a `usize`.
    pub open spec fn totals_fit_spec(&self) -> bool {
        sum_lines(self.files_view()) <= usize::MAX && sum_functions(self.files_view()) <= usize::MAX
    }

    /// Whether the line and function totals fit in a `usize`.
    pub fn totals_fit(&self) -> (r: bool)
        ensures
            r == self.totals_fit_spec(),
    {
        let ghost fv = self.files_view();
        let mut lines: u128 = 0;
        let mut fns: u128 = 0;
        let mut ok = true;
        let mut i: usize = 0;
        while i < self.files.len()
            invariant
                fv == self.files_view(),
                i <= self.files@.len(),
                ok ==> lines == sum_lines(fv.take(i as int)) && fns == sum_functions(fv.take(i as int)),
                ok ==> lines <= usize::MAX && fns <= usize::MAX,
                !ok ==> !self.totals_fit_spec(),
            decreases self.files@.len() - i,
        {
            if ok {
                assert(fv.take(i + 1).drop_last() =~= fv.take(i as int));
                assert(fv[i as int] == (self.files@[i as int].0@, self.files@[i as int].1@));
                lines = lines + self.files[i].1.total_lines as u128;
                fns = fns + self.files[i].1.functions.len() as u128;
                if lines > usize::MAX as u128 || fns > usize::MAX as u128 {
                    ok = false;
                    proof {
                        lemma_sums_grow(fv, i + 1);
                    }
                }
            }
            i += 1;
        }
        assert(fv.take(self.files@.len() as int) =~= fv);
        ok
    }

    /// The summary of the analysis: file, line and function totals, dead
    /// code, orphan files, circular dependencies and the most connected files.
    pub fn generate_report(&self) -> (r: AnalysisReport)
        requires
            self.wf(),
            self.totals_fit_spec(),
        ensures
            r.total_files == self.files@.len(),
            r.total_lines == sum_lines(self.files_view()),
            r.total_functions == sum_functions(self.files_view()),
            str_views(r.dead_code@) == self.spec_dead_code(),
            str_views(r.orphan_files@) == self.spec_orphan_files(),
            cycle_views(r.circular_deps@) == self.spec_circular_deps(),
            self.cycles_sound(cycle_views(r.circular_deps@)),
            cycle_views(r.circular_deps@).len() == 0 <==> !self.has_cycle(),
            self.is_most_connected(r.most_connected_files@),
    {
        let ghost fv = self.files_view();
        let mut lines: usize = 0;
        let mut fns: usize = 0;
        let mut i: usize = 0;
        while i < self.files.len()
            invariant
                fv == self.files_view(),
                self.totals_fit_spec(),
                i <= self.files@.len(),
                lines == sum_lines(fv.take(i as int)),
                fns == sum_functions(fv.take(i as int)),
            decreases self.files@.len() - i,
        {
            assert(fv.take(i + 1).drop_last() =~= fv.take(i as int));
            assert(fv[i as int] == (self.files@[i as int].0@, self.files@[i as int].1@));
            proof {
                lemma_sums_grow(fv, i + 1);
            }
            lines = lines + self.files[i].1.total_lines;
            fns = fns + self.files[i].1.functions.len();
            i += 1;
        }
        assert(fv.take(self.files@.len() as int) =~= fv);
        AnalysisReport {
            total_files: self.files.len(),
            total_lines: lines,
            total_functions: fns,
            dead_code: self.dead_code(),
            orphan_files: self.orphan_files(),
            circular_deps: self.detect_circular_deps(),
            most_connected_files: self.most_connected_files(),
        }
    }
}

/// The totals over a prefix are at most the totals over all files.
pub proof fn lemma_sums_grow(f: Seq<(Seq<char>, FileView)>, i: int)
    requires
        0 <= i <= f.len(),
    ensures
        sum_lines(f.take(i)) <= sum_lines(f),
        sum_functions(f.take(i)) <= sum_functions(f),
    decreases f.len() - i,
{
    if i < f.len() {
        lemma_sums_grow(f, i + 1);
        assert(f.take(i + 1).drop_last() =~= f.take(i));
    } else {
        assert(f.take(i) =~= f);
    }
}

} // verus!
