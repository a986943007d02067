//! The cross-reference index: every occurrence of every symbol, kept flat in
//! the order in which the analysis reported it. The nested view
//! symbol -> kind -> file -> results is a projection of that list.
use vstd::prelude::*;
use crate::snippet::{snippet, snippet_of};

verus! {

/// How a symbol occurs on a line.
#[derive(Clone, Copy, Debug, PartialEq, Eq, Structural)]
pub enum AnalysisKind {
    Use,
    Def,
    Assign,
    Decl,
    Idl,
}

/// One fact of the analysis of a file.
pub struct AnalysisDatum {
    /// 1-based line number.
    pub lineno: u32,
    pub col: u32,
    pub kind: AnalysisKind,
    pub sym: String,
    pub pretty: String,
}

/// One recorded occurrence: the symbol, its kind, the file, the line number
/// and snippet, and the pretty name that came with it.
pub struct Occurrence {
    pub sym: String,
    pub kind: AnalysisKind,
    pub path: String,
    pub lineno: u32,
    pub line: String,
    pub pretty: String,
}

/// What an occurrence records, as plain values.
pub struct OccView {
    pub sym: Seq<char>,
    pub kind: AnalysisKind,
    pub path: Seq<char>,
    pub lineno: u32,
    pub line: Seq<char>,
    pub pretty: Seq<char>,
}

impl View for Occurrence {
    type V = OccView;

    open spec fn view(&self) -> OccView {
        OccView {
            sym: self.sym@,
            kind: self.kind,
            path: self.path@,
            lineno: self.lineno,
            line: self.line@,
            pretty: self.pretty@,
        }
    }
}

pub open spec fn views(occ: Seq<Occurrence>) -> Seq<OccView> {
    occ.map_values(|o: Occurrence| o@)
}

impl Occurrence {
    pub fn copy(&self) -> (r: Occurrence)
        ensures
            r == *self,
    {
        Occurrence {
            sym: self.sym.clone(),
            kind: self.kind,
            path: self.path.clone(),
            lineno: self.lineno,
            line: self.line.clone(),
            pretty: self.pretty.clone(),
        }
    }
}

/// A datum whose line number was outside the file's lines; the rest of that
/// file's data was dropped.
#[derive(Clone, Copy, Debug, PartialEq, Eq, Structural)]
pub struct BadLine {
    /// Position of the datum in the file's data.
    pub index: usize,
    pub lineno: u32,
}

pub struct CrossrefIndex {
    occurrences: Vec<Occurrence>,
}

impl View for CrossrefIndex {
    type V = Seq<OccView>;

    closed spec fn view(&self) -> Seq<OccView> {
        views(self.occurrences@)
    }
}

pub open spec fn in_bounds(lineno: u32, nlines: int) -> bool {
    1 <= lineno && lineno <= nlines
}

/// What datum `d` of file `path`, whose lines are `lines`, records.
pub open spec fn occ_of(path: Seq<char>, d: AnalysisDatum, lines: Seq<String>) -> OccView {
    OccView {
        sym: d.sym@,
        kind: d.kind,
        path,
        lineno: d.lineno,
        line: snippet_of(lines[d.lineno - 1]@),
        pretty: d.pretty@,
    }
}

/// The position of the first datum whose line is not a line of the file,
/// or the number of data if there is none.
pub open spec fn first_bad(data: Seq<AnalysisDatum>, nlines: int) -> int
    decreases data.len(),
{
    if data.len() == 0 || !in_bounds(data[0].lineno, nlines) {
        0
    } else {
        1 + first_bad(data.drop_first(), nlines)
    }
}

/// What one file adds to the index: its data up to the first bad line.
pub open spec fn file_occs(path: Seq<char>, data: Seq<AnalysisDatum>, lines: Seq<String>) -> Seq<OccView> {
    data.take(first_bad(data, lines.len() as int)).map_values(|d: AnalysisDatum| occ_of(path, d, lines))
}

proof fn lemma_first_bad(data: Seq<AnalysisDatum>, nlines: int, k: int)
    requires
        0 <= k <= data.len(),
        forall|j: int| 0 <= j < k ==> in_bounds(#[trigger] data[j].lineno, nlines),
        k < data.len() ==> !in_bounds(data[k].lineno, nlines),
    ensures
        first_bad(data, nlines) == k,
    decreases k,
{
    if k > 0 {
        assert(in_bounds(data[0].lineno, nlines));
        let t = data.drop_first();
        assert forall|j: int| 0 <= j < k - 1 implies in_bounds(#[trigger] t[j].lineno, nlines) by {
            assert(t[j] == data[j + 1]);
        }
        lemma_first_bad(t, nlines, k - 1);
    }
}

/// One manifest entry as it was read: the analysis data and the source
/// lines, each absent where it could not be read.
pub struct FileInput {
    pub path: String,
    pub analysis: Option<Vec<AnalysisDatum>>,
    pub lines: Option<Vec<String>>,
}

/// How a file went; all but `Indexed` are diagnostics, none stops the run.
#[derive(Clone, Copy, Debug, PartialEq, Eq, Structural)]
pub enum FileOutcome {
    Indexed,
    MissingAnalysis,
    MissingSource,
    BadLine(BadLine),
}

/// What a manifest entry adds to the index.
pub open spec fn input_occs(input: FileInput) -> Seq<OccView> {
    match (input.analysis, input.lines) {
        (Some(data), Some(lines)) => file_occs(input.path@, data@, lines@),
        _ => seq![],
    }
}

/// Both the analysis and the source were read, and every datum's line is a
/// line of the file.
pub open spec fn fully_indexed(input: FileInput) -> bool {
    &&& input.analysis is Some
    &&& input.lines is Some
    &&& first_bad(input.analysis->0@, input.lines->0@.len() as int) == input.analysis->0@.len()
}

/// The index built from a manifest, file by file in order.
pub open spec fn built(inputs: Seq<FileInput>) -> Seq<OccView>
    decreases inputs.len(),
{
    if inputs.len() == 0 {
        seq![]
    } else {
        built(inputs.drop_last()) + input_occs(inputs.last())
    }
}

impl CrossrefIndex {
    pub fn new() -> (r: CrossrefIndex)
        ensures
            r@ == Seq::<OccView>::empty(),
    {
        CrossrefIndex { occurrences: Vec::new() }
    }

    pub fn len(&self) -> (r: usize)
        ensures
            r == self@.len(),
    {
        self.occurrences.len()
    }

    pub fn occurrences(&self) -> (r: &Vec<Occurrence>)
        ensures
            views(r@) == self@,
    {
        &self.occurrences
    }

    pub fn occurrence(&self, i: usize) -> (r: &Occurrence)
        requires
            i < self@.len(),
        ensures
            r@ == self@[i as int],
    {
        &self.occurrences[i]
    }

    /// Records the data of one file, in order. A datum whose line number is
    /// not a line of the file stops the file: what came before it stays, it
    /// and what follows are dropped, and its position is returned.
    pub fn add_file(&mut self, path: &str, data: &Vec<AnalysisDatum>, lines: &Vec<String>) -> (r:
        Result<(), BadLine>)
        ensures
            final(self)@ == old(self)@ + file_occs(path@, data@, lines@),
            r is Ok <==> first_bad(data@, lines@.len() as int) == data@.len(),
            r matches Err(e) ==> e.index == first_bad(data@, lines@.len() as int) && e.index < data@.len()
                && e.lineno == data@[e.index as int].lineno,
    {
        let ghost n0 = self@.len();
        let mut i: usize = 0;
        while i < data.len()
            invariant
                i <= data@.len(),
                n0 == old(self)@.len(),
                self@ == old(self)@ + data@.take(i as int).map_values(
                    |d: AnalysisDatum| occ_of(path@, d, lines@),
                ),
                forall|j: int| 0 <= j < i ==> in_bounds(#[trigger] data@[j].lineno, lines@.len() as int),
            decreases data@.len() - i,
        {
            let d = &data[i];
            if d.lineno == 0 || (d.lineno - 1) as usize >= lines.len() {
                proof {
                    lemma_first_bad(data@, lines@.len() as int, i as int);
                }
                return Err(BadLine { index: i, lineno: d.lineno });
            }
            let idx = (d.lineno - 1) as usize;
            let line = snippet(lines[idx].as_str());
            let o = Occurrence {
                sym: d.sym.clone(),
                kind: d.kind,
                path: path.to_owned(),
                lineno: d.lineno,
                line,
                pretty: d.pretty.clone(),
            };
            let ghost before = self.occurrences@;
            self.occurrences.push(o);
            assert(views(self.occurrences@) =~= views(before).push(o@));
            assert(data@.take(i + 1).map_values(|d: AnalysisDatum| occ_of(path@, d, lines@))
                =~= data@.take(i as int).map_values(|d: AnalysisDatum| occ_of(path@, d, lines@)).push(
                occ_of(path@, data@[i as int], lines@),
            ));
            assert(self@ =~= old(self)@ + data@.take(i + 1).map_values(
                |d: AnalysisDatum| occ_of(path@, d, lines@),
            ));
            i += 1;
        }
        proof {
            lemma_first_bad(data@, lines@.len() as int, data@.len() as int);
        }
        Ok(())
    }

    /// Records one manifest entry. A file whose analysis or source could not
    /// be read is skipped and leaves the index as it was.
    pub fn add_input(&mut self, input: &FileInput) -> (r: FileOutcome)
        ensures
            final(self)@ == old(self)@ + input_occs(*input),
            input.analysis is None ==> r == FileOutcome::MissingAnalysis,
            input.analysis is Some && input.lines is None ==> r == FileOutcome::MissingSource,
            r == FileOutcome::Indexed <==> fully_indexed(*input),
            r matches FileOutcome::BadLine(e) ==> input.analysis is Some && input.lines is Some
                && e.index == first_bad(input.analysis->0@, input.lines->0@.len() as int) && e.index
                < input.analysis->0@.len(),
    {
        match &input.analysis {
            None => {
                assert(self@ =~= old(self)@ + input_occs(*input));
                FileOutcome::MissingAnalysis
            },
            Some(data) => match &input.lines {
                None => {
                    assert(self@ =~= old(self)@ + input_occs(*input));
                    FileOutcome::MissingSource
                },
                Some(lines) => match self.add_file(input.path.as_str(), data, lines) {
                    Ok(()) => FileOutcome::Indexed,
                    Err(e) => FileOutcome::BadLine(e),
                },
            },
        }
    }
}

/// Builds the index from a manifest, file by file in order, with one
/// outcome per file.
pub fn build_index(inputs: &Vec<FileInput>) -> (r: (CrossrefIndex, Vec<FileOutcome>))
    ensures
        r.0@ == built(inputs@),
        r.1@.len() == inputs@.len(),
        forall|i: int|
            0 <= i < inputs@.len() ==> ((#[trigger] r.1@[i] == FileOutcome::Indexed) <==> fully_indexed(
                inputs@[i],
            )),
{
    let mut index = CrossrefIndex::new();
    let mut outcomes: Vec<FileOutcome> = Vec::new();
    let mut i: usize = 0;
    while i < inputs.len()
        invariant
            i <= inputs@.len(),
            index@ == built(inputs@.take(i as int)),
            outcomes@.len() == i,
            forall|j: int|
                0 <= j < i ==> ((#[trigger] outcomes@[j] == FileOutcome::Indexed) <==> fully_indexed(
                    inputs@[j],
                )),
        decreases inputs@.len() - i,
    {
        assert(inputs@.take(i + 1).drop_last() =~= inputs@.take(i as int));
        let o = index.add_input(&inputs[i]);
        outcomes.push(o);
        i += 1;
    }
    assert(inputs@.take(inputs@.len() as int) =~= inputs@);
    (index, outcomes)
}

/// The index files depend on the manifest's contents alone: two builds from
/// the same inputs write the same cross-reference and jump files, byte for
/// byte.
pub proof fn lemma_rebuild_identical(x: CrossrefIndex, y: CrossrefIndex, inputs: Seq<FileInput>)
    requires
        x@ == built(inputs),
        y@ == built(inputs),
    ensures
        crate::serialize::crossref_of(x@) == crate::serialize::crossref_of(y@),
        crate::serialize::jumps_of(x@) == crate::serialize::jumps_of(y@),
{
}

} // verus!
