//! The two index files: the cross-reference file, two lines per symbol, and
//! the jump file, one line per symbol with a unique definition.
use vstd::prelude::*;
use vstd::string::StringExecFns;
use crate::index::{views, AnalysisKind, CrossrefIndex, OccView, Occurrence};
use crate::json::{decimal, json_number, json_quoted, json_string};

verus! {

pub open spec fn strs(v: Seq<String>) -> Seq<Seq<char>> {
    v.map_values(|s: String| s@)
}

/// The distinct elements of `s`, in the order of their first occurrence.
pub open spec fn distinct(s: Seq<Seq<char>>) -> Seq<Seq<char>>
    decreases s.len(),
{
    if s.len() == 0 {
        seq![]
    } else {
        let p = distinct(s.drop_last());
        if p.contains(s.last()) {
            p
        } else {
            p.push(s.last())
        }
    }
}

/// The occurrences of `sym` with kind `kind`, in order.
pub open spec fn select(occ: Seq<OccView>, sym: Seq<char>, kind: AnalysisKind) -> Seq<OccView>
    decreases occ.len(),
{
    if occ.len() == 0 {
        seq![]
    } else {
        let p = select(occ.drop_last(), sym, kind);
        if occ.last().sym == sym && occ.last().kind == kind {
            p.push(occ.last())
        } else {
            p
        }
    }
}

/// The occurrences in file `path`, in order.
pub open spec fn at_path(occ: Seq<OccView>, path: Seq<char>) -> Seq<OccView>
    decreases occ.len(),
{
    if occ.len() == 0 {
        seq![]
    } else {
        let p = at_path(occ.drop_last(), path);
        if occ.last().path == path {
            p.push(occ.last())
        } else {
            p
        }
    }
}

pub open spec fn sym_seq(occ: Seq<OccView>) -> Seq<Seq<char>> {
    occ.map_values(|o: OccView| o.sym)
}

pub open spec fn path_seq(occ: Seq<OccView>) -> Seq<Seq<char>> {
    occ.map_values(|o: OccView| o.path)
}

/// The symbols of the index, in the order in which they were first seen.
pub open spec fn symbols(occ: Seq<OccView>) -> Seq<Seq<char>> {
    distinct(sym_seq(occ))
}

/// The files in which `sym` occurs with kind `kind`.
pub open spec fn files(occ: Seq<OccView>, sym: Seq<char>, kind: AnalysisKind) -> Seq<Seq<char>> {
    distinct(path_seq(select(occ, sym, kind)))
}

/// The results listed under `sym`, `kind` and `path`, in the order found.
pub open spec fn results(occ: Seq<OccView>, sym: Seq<char>, kind: AnalysisKind, path: Seq<char>) -> Seq<OccView> {
    at_path(select(occ, sym, kind), path)
}

/// The pretty name last recorded for `sym`.
pub open spec fn pretty_of(occ: Seq<OccView>, sym: Seq<char>) -> Seq<char>
    decreases occ.len(),
{
    if occ.len() == 0 {
        seq![]
    } else if occ.last().sym == sym {
        occ.last().pretty
    } else {
        pretty_of(occ.drop_last(), sym)
    }
}

/// Comma-separated.
pub open spec fn join(parts: Seq<Seq<char>>) -> Seq<char>
    decreases parts.len(),
{
    if parts.len() == 0 {
        seq![]
    } else if parts.len() == 1 {
        parts[0]
    } else {
        join(parts.drop_last()) + ","@ + parts.last()
    }
}

pub open spec fn concat(parts: Seq<Seq<char>>) -> Seq<char>
    decreases parts.len(),
{
    if parts.len() == 0 {
        seq![]
    } else {
        concat(parts.drop_last()) + parts.last()
    }
}

fn contains_str(v: &Vec<String>, s: &String) -> (b: bool)
    ensures
        b == strs(v@).contains(s@),
{
    let mut i: usize = 0;
    while i < v.len()
        invariant
            i <= v@.len(),
            forall|j: int| 0 <= j < i ==> v@[j]@ != s@,
        decreases v@.len() - i,
    {
        if v[i] == *s {
            assert(strs(v@)[i as int] == s@);
            return true;
        }
        i += 1;
    }
    assert forall|j: int| 0 <= j < strs(v@).len() implies strs(v@)[j] != s@ by {}
    false
}

fn distinct_syms(occ: &Vec<Occurrence>) -> (r: Vec<String>)
    ensures
        strs(r@) == distinct(sym_seq(views(occ@))),
{
    let mut r: Vec<String> = Vec::new();
    let mut i: usize = 0;
    while i < occ.len()
        invariant
            i <= views(occ@).len(),
            strs(r@) == distinct(sym_seq(views(occ@).take(i as int))),
        decreases views(occ@).len() - i,
    {
        let o = &occ[i];
        proof {
            assert(sym_seq(views(occ@).take(i + 1)).drop_last() =~= sym_seq(views(occ@).take(i as int)));
            assert(sym_seq(views(occ@).take(i + 1)).last() == o.sym@);
        }
        if !contains_str(&r, &o.sym) {
            let ghost before = r@;
            r.push(o.sym.clone());
            assert(strs(r@) =~= strs(before).push(o.sym@));
        }
        i += 1;
    }
    assert(views(occ@).take(views(occ@).len() as int) =~= views(occ@));
    r
}

fn distinct_paths(occ: &Vec<Occurrence>) -> (r: Vec<String>)
    ensures
        strs(r@) == distinct(path_seq(views(occ@))),
{
    let mut r: Vec<String> = Vec::new();
    let mut i: usize = 0;
    while i < occ.len()
        invariant
            i <= views(occ@).len(),
            strs(r@) == distinct(path_seq(views(occ@).take(i as int))),
        decreases views(occ@).len() - i,
    {
        let o = &occ[i];
        proof {
            assert(path_seq(views(occ@).take(i + 1)).drop_last() =~= path_seq(views(occ@).take(i as int)));
            assert(path_seq(views(occ@).take(i + 1)).last() == o.path@);
        }
        if !contains_str(&r, &o.path) {
            let ghost before = r@;
            r.push(o.path.clone());
            assert(strs(r@) =~= strs(before).push(o.path@));
        }
        i += 1;
    }
    assert(views(occ@).take(views(occ@).len() as int) =~= views(occ@));
    r
}

fn select_occ(occ: &Vec<Occurrence>, sym: &String, kind: AnalysisKind) -> (r: Vec<Occurrence>)
    ensures
        views(r@) == select(views(occ@), sym@, kind),
{
    let mut r: Vec<Occurrence> = Vec::new();
    let mut i: usize = 0;
    while i < occ.len()
        invariant
            i <= views(occ@).len(),
            views(r@) == select(views(occ@).take(i as int), sym@, kind),
        decreases views(occ@).len() - i,
    {
        let o = &occ[i];
        proof {
            assert(views(occ@).take(i + 1).drop_last() =~= views(occ@).take(i as int));
        }
        if o.sym == *sym && o.kind == kind {
            let ghost before = r@;
            r.push(o.copy());
            assert(views(r@) =~= views(before).push(o@));
        }
        i += 1;
    }
    assert(views(occ@).take(views(occ@).len() as int) =~= views(occ@));
    r
}

fn at_path_occ(occ: &Vec<Occurrence>, path: &String) -> (r: Vec<Occurrence>)
    ensures
        views(r@) == at_path(views(occ@), path@),
{
    let mut r: Vec<Occurrence> = Vec::new();
    let mut i: usize = 0;
    while i < occ.len()
        invariant
            i <= views(occ@).len(),
            views(r@) == at_path(views(occ@).take(i as int), path@),
        decreases views(occ@).len() - i,
    {
        let o = &occ[i];
        proof {
            assert(views(occ@).take(i + 1).drop_last() =~= views(occ@).take(i as int));
        }
        if o.path == *path {
            let ghost before = r@;
            r.push(o.copy());
            assert(views(r@) =~= views(before).push(o@));
        }
        i += 1;
    }
    assert(views(occ@).take(views(occ@).len() as int) =~= views(occ@));
    r
}

fn pretty_name(occ: &Vec<Occurrence>, sym: &String) -> (r: String)
    ensures
        r@ == pretty_of(views(occ@), sym@),
{
    let mut r = String::new();
    let mut i: usize = 0;
    while i < occ.len()
        invariant
            i <= views(occ@).len(),
            r@ == pretty_of(views(occ@).take(i as int), sym@),
        decreases views(occ@).len() - i,
    {
        let o = &occ[i];
        proof {
            assert(views(occ@).take(i + 1).drop_last() =~= views(occ@).take(i as int));
        }
        if o.sym == *sym {
            r = o.pretty.clone();
        }
        i += 1;
    }
    assert(views(occ@).take(views(occ@).len() as int) =~= views(occ@));
    r
}

/// `{"line":...,"lno":...}` for one result.
pub open spec fn result_json(o: OccView) -> Seq<char> {
    "{\"line\":"@ + json_quoted(o.line) + ",\"lno\":"@ + decimal(o.lineno as nat) + "}"@
}

pub open spec fn result_parts(rs: Seq<OccView>) -> Seq<Seq<char>> {
    rs.map_values(|o: OccView| result_json(o))
}

/// `{"lines":[...],"path":...}` for the results of `sel` in file `path`.
pub open spec fn file_json(sel: Seq<OccView>, path: Seq<char>) -> Seq<char> {
    "{\"lines\":["@ + join(result_parts(at_path(sel, path))) + "],\"path\":"@ + json_quoted(path) + "}"@
}

pub open spec fn file_parts(sel: Seq<OccView>, paths: Seq<Seq<char>>) -> Seq<Seq<char>> {
    paths.map_values(|p: Seq<char>| file_json(sel, p))
}

/// The array of per-file objects for the occurrences `sel` of one symbol
/// and kind.
pub open spec fn kind_json(sel: Seq<OccView>) -> Seq<char> {
    "["@ + join(file_parts(sel, distinct(path_seq(sel)))) + "]"@
}

pub open spec fn kind_name(k: AnalysisKind) -> Seq<char> {
    match k {
        AnalysisKind::Use => "Uses"@,
        AnalysisKind::Def => "Definitions"@,
        AnalysisKind::Assign => "Assignments"@,
        AnalysisKind::Decl => "Declarations"@,
        AnalysisKind::Idl => "IDL"@,
    }
}

/// The kinds in the order of their names, which is the order of the keys
/// of a JSON object as the encoder writes it.
pub open spec fn kind_order() -> Seq<AnalysisKind> {
    seq![
        AnalysisKind::Assign,
        AnalysisKind::Decl,
        AnalysisKind::Def,
        AnalysisKind::Idl,
        AnalysisKind::Use,
    ]
}

pub open spec fn kind_entry(occ: Seq<OccView>, sym: Seq<char>, k: AnalysisKind) -> Seq<char> {
    "\""@ + kind_name(k) + "\":"@ + kind_json(select(occ, sym, k))
}

/// The members of a symbol's JSON object, one for each kind of `ks` that
/// occurred.
pub open spec fn kind_entries(occ: Seq<OccView>, sym: Seq<char>, ks: Seq<AnalysisKind>) -> Seq<Seq<char>>
    decreases ks.len(),
{
    if ks.len() == 0 {
        seq![]
    } else {
        let p = kind_entries(occ, sym, ks.drop_last());
        if select(occ, sym, ks.last()).len() > 0 {
            p.push(kind_entry(occ, sym, ks.last()))
        } else {
            p
        }
    }
}

/// The JSON object of a symbol in the cross-reference file.
pub open spec fn symbol_json(occ: Seq<OccView>, sym: Seq<char>) -> Seq<char> {
    "{"@ + join(kind_entries(occ, sym, kind_order())) + "}"@
}

/// A symbol's two lines in the cross-reference file.
pub open spec fn symbol_block(occ: Seq<OccView>, sym: Seq<char>) -> Seq<char> {
    sym + "\n"@ + symbol_json(occ, sym) + "\n"@
}

pub open spec fn block_parts(occ: Seq<OccView>, syms: Seq<Seq<char>>) -> Seq<Seq<char>> {
    syms.map_values(|s: Seq<char>| symbol_block(occ, s))
}

/// The whole cross-reference file.
pub open spec fn crossref_of(occ: Seq<OccView>) -> Seq<char> {
    concat(block_parts(occ, symbols(occ)))
}

proof fn lemma_join_push(parts: Seq<Seq<char>>, x: Seq<char>)
    ensures
        join(parts.push(x)) == (if parts.len() == 0 {
            x
        } else {
            join(parts) + ","@ + x
        }),
{
    assert(parts.push(x).drop_last() =~= parts);
    if parts.len() == 0 {
        assert(parts.push(x)[0] == x);
    }
}

proof fn lemma_concat_push(parts: Seq<Seq<char>>, x: Seq<char>)
    ensures
        concat(parts.push(x)) == concat(parts) + x,
{
    assert(parts.push(x).drop_last() =~= parts);
}

fn write_result(acc: &mut String, o: &Occurrence)
    ensures
        final(acc)@ == old(acc)@ + result_json(o@),
{
    acc.append("{\"line\":");
    let q = json_string(o.line.as_str());
    acc.append(q.as_str());
    acc.append(",\"lno\":");
    let n = json_number(o.lineno);
    acc.append(n.as_str());
    acc.append("}");
    assert(final(acc)@ =~= old(acc)@ + result_json(o@));
}

fn write_results(acc: &mut String, rs: &Vec<Occurrence>)
    ensures
        final(acc)@ == old(acc)@ + join(result_parts(views(rs@))),
{
    let ghost start = acc@;
    let mut k: usize = 0;
    while k < rs.len()
        invariant
            k <= views(rs@).len(),
            acc@ == start + join(result_parts(views(rs@).take(k as int))),
        decreases views(rs@).len() - k,
    {
        let ghost before = acc@;
        proof {
            assert(result_parts(views(rs@).take(k + 1)) =~= result_parts(views(rs@).take(k as int)).push(
                result_json(views(rs@)[k as int]),
            ));
            lemma_join_push(result_parts(views(rs@).take(k as int)), result_json(views(rs@)[k as int]));
        }
        if k > 0 {
            acc.append(",");
        }
        write_result(acc, &rs[k]);
        assert(acc@ =~= start + join(result_parts(views(rs@).take(k + 1))));
        k += 1;
    }
    assert(views(rs@).take(views(rs@).len() as int) =~= views(rs@));
}

fn write_file(acc: &mut String, sel: &Vec<Occurrence>, path: &String)
    ensures
        final(acc)@ == old(acc)@ + file_json(views(sel@), path@),
{
    let rs = at_path_occ(sel, path);
    acc.append("{\"lines\":[");
    write_results(acc, &rs);
    acc.append("],\"path\":");
    let q = json_string(path.as_str());
    acc.append(q.as_str());
    acc.append("}");
    assert(final(acc)@ =~= old(acc)@ + file_json(views(sel@), path@));
}

fn write_kind(acc: &mut String, sel: &Vec<Occurrence>)
    ensures
        final(acc)@ == old(acc)@ + kind_json(views(sel@)),
{
    let paths = distinct_paths(sel);
    let ghost ps = strs(paths@);
    acc.append("[");
    let ghost start = acc@;
    let mut k: usize = 0;
    while k < paths.len()
        invariant
            k <= paths@.len(),
            ps == strs(paths@),
            ps == distinct(path_seq(views(sel@))),
            acc@ == start + join(file_parts(views(sel@), ps.take(k as int))),
        decreases paths@.len() - k,
    {
        proof {
            assert(ps[k as int] == paths@[k as int]@);
            assert(file_parts(views(sel@), ps.take(k + 1)) =~= file_parts(views(sel@), ps.take(k as int)).push(
                file_json(views(sel@), ps[k as int]),
            ));
            lemma_join_push(file_parts(views(sel@), ps.take(k as int)), file_json(views(sel@), ps[k as int]));
        }
        if k > 0 {
            acc.append(",");
        }
        write_file(acc, sel, &paths[k]);
        assert(acc@ =~= start + join(file_parts(views(sel@), ps.take(k + 1))));
        k += 1;
    }
    assert(ps.take(ps.len() as int) =~= ps);
    acc.append("]");
    assert(final(acc)@ =~= old(acc)@ + kind_json(views(sel@)));
}

fn kind_at(i: usize) -> (k: AnalysisKind)
    requires
        i < 5,
    ensures
        k == kind_order()[i as int],
{
    if i == 0 {
        AnalysisKind::Assign
    } else if i == 1 {
        AnalysisKind::Decl
    } else if i == 2 {
        AnalysisKind::Def
    } else if i == 3 {
        AnalysisKind::Idl
    } else {
        AnalysisKind::Use
    }
}

fn kind_label(k: AnalysisKind) -> (r: &'static str)
    ensures
        r@ == kind_name(k),
{
    match k {
        AnalysisKind::Use => "Uses",
        AnalysisKind::Def => "Definitions",
        AnalysisKind::Assign => "Assignments",
        AnalysisKind::Decl => "Declarations",
        AnalysisKind::Idl => "IDL",
    }
}

#[verifier::rlimit(40)]
fn write_symbol(acc: &mut String, occ: &Vec<Occurrence>, sym: &String)
    ensures
        final(acc)@ == old(acc)@ + symbol_json(views(occ@), sym@),
{
    acc.append("{");
    let ghost start = acc@;
    let mut count: usize = 0;
    let mut i: usize = 0;
    while i < 5
        invariant
            i <= 5,
            count == kind_entries(views(occ@), sym@, kind_order().take(i as int)).len(),
            count <= i,
            acc@ == start + join(kind_entries(views(occ@), sym@, kind_order().take(i as int))),
        decreases 5 - i,
    {
        let k = kind_at(i);
        let ghost prev = kind_entries(views(occ@), sym@, kind_order().take(i as int));
        proof {
            assert(kind_order().take(i + 1).drop_last() =~= kind_order().take(i as int));
            assert(kind_order().take(i + 1).last() == k);
        }
        let sel = select_occ(occ, sym, k);
        if sel.len() > 0 {
            proof {
                lemma_join_push(prev, kind_entry(views(occ@), sym@, k));
            }
            if count > 0 {
                acc.append(",");
            }
            acc.append("\"");
            acc.append(kind_label(k));
            acc.append("\":");
            write_kind(acc, &sel);
            assert(acc@ =~= start + join(prev.push(kind_entry(views(occ@), sym@, k))));
            count += 1;
        }
        i += 1;
    }
    assert(kind_order().take(5) =~= kind_order());
    acc.append("}");
    assert(final(acc)@ =~= old(acc)@ + symbol_json(views(occ@), sym@));
}

impl CrossrefIndex {
    /// The cross-reference file: for each symbol, in the order first seen,
    /// a line with the symbol and a line with its JSON object.
    pub fn crossref_text(&self) -> (r: String)
        ensures
            r@ == crossref_of(self@),
    {
        let occ = self.occurrences();
        let syms = distinct_syms(occ);
        let ghost ss = strs(syms@);
        let mut acc = String::new();
        let mut k: usize = 0;
        while k < syms.len()
            invariant
                k <= syms@.len(),
                views(occ@) == self@,
                ss == strs(syms@),
                ss == symbols(views(occ@)),
                acc@ == concat(block_parts(views(occ@), ss.take(k as int))),
            decreases syms@.len() - k,
        {
            let ghost before = acc@;
            proof {
                assert(ss[k as int] == syms@[k as int]@);
                assert(block_parts(views(occ@), ss.take(k + 1)) =~= block_parts(views(occ@), ss.take(k as int)).push(
                    symbol_block(views(occ@), ss[k as int]),
                ));
                lemma_concat_push(block_parts(views(occ@), ss.take(k as int)), symbol_block(views(occ@), ss[k as int]));
            }
            acc.append(syms[k].as_str());
            acc.append("\n");
            write_symbol(&mut acc, occ, &syms[k]);
            acc.append("\n");
            assert(acc@ =~= before + symbol_block(views(occ@), ss[k as int]));
            k += 1;
        }
        assert(ss.take(ss.len() as int) =~= ss);
        acc
    }
}

/// A symbol has a jump entry when its definitions lie in exactly one file,
/// and there on exactly one line.
pub open spec fn has_jump(occ: Seq<OccView>, sym: Seq<char>) -> bool {
    let fs = files(occ, sym, AnalysisKind::Def);
    fs.len() == 1 && results(occ, sym, AnalysisKind::Def, fs[0]).len() == 1
}

/// The file of a symbol's unique definition.
pub open spec fn jump_path(occ: Seq<OccView>, sym: Seq<char>) -> Seq<char> {
    files(occ, sym, AnalysisKind::Def)[0]
}

/// The line number of a symbol's unique definition.
pub open spec fn jump_lineno(occ: Seq<OccView>, sym: Seq<char>) -> u32 {
    results(occ, sym, AnalysisKind::Def, jump_path(occ, sym))[0].lineno
}

/// `[symbol,path,line,pretty]` and a newline, or nothing.
pub open spec fn jump_line(occ: Seq<OccView>, sym: Seq<char>) -> Seq<char> {
    if has_jump(occ, sym) {
        "["@ + json_quoted(sym) + ","@ + json_quoted(jump_path(occ, sym)) + ","@ + decimal(
            jump_lineno(occ, sym) as nat,
        ) + ","@ + json_quoted(pretty_of(occ, sym)) + "]\n"@
    } else {
        seq![]
    }
}

pub open spec fn jump_parts(occ: Seq<OccView>, syms: Seq<Seq<char>>) -> Seq<Seq<char>> {
    syms.map_values(|s: Seq<char>| jump_line(occ, s))
}

/// The whole jump file.
pub open spec fn jumps_of(occ: Seq<OccView>) -> Seq<char> {
    concat(jump_parts(occ, symbols(occ)))
}

fn write_jump(acc: &mut String, occ: &Vec<Occurrence>, sym: &String)
    ensures
        final(acc)@ == old(acc)@ + jump_line(views(occ@), sym@),
{
    let defs = select_occ(occ, sym, AnalysisKind::Def);
    let paths = distinct_paths(&defs);
    if paths.len() != 1 {
        assert(final(acc)@ =~= old(acc)@ + jump_line(views(occ@), sym@));
        return;
    }
    assert(strs(paths@)[0] == paths@[0]@);
    let rs = at_path_occ(&defs, &paths[0]);
    if rs.len() != 1 {
        assert(final(acc)@ =~= old(acc)@ + jump_line(views(occ@), sym@));
        return;
    }
    let pretty = pretty_name(occ, sym);
    acc.append("[");
    let q = json_string(sym.as_str());
    acc.append(q.as_str());
    acc.append(",");
    let q = json_string(paths[0].as_str());
    acc.append(q.as_str());
    acc.append(",");
    let n = json_number(rs[0].lineno);
    acc.append(n.as_str());
    acc.append(",");
    let q = json_string(pretty.as_str());
    acc.append(q.as_str());
    acc.append("]\n");
    assert(final(acc)@ =~= old(acc)@ + jump_line(views(occ@), sym@));
}

impl CrossrefIndex {
    /// The jump file: a line `[symbol,path,line,pretty]` for each symbol,
    /// in the order first seen, with a unique definition.
    pub fn jumps_text(&self) -> (r: String)
        ensures
            r@ == jumps_of(self@),
    {
        let occ = self.occurrences();
        let syms = distinct_syms(occ);
        let ghost ss = strs(syms@);
        let mut acc = String::new();
        let mut k: usize = 0;
        while k < syms.len()
            invariant
                k <= syms@.len(),
                views(occ@) == self@,
                ss == strs(syms@),
                ss == symbols(views(occ@)),
                acc@ == concat(jump_parts(views(occ@), ss.take(k as int))),
            decreases syms@.len() - k,
        {
            proof {
                assert(ss[k as int] == syms@[k as int]@);
                assert(jump_parts(views(occ@), ss.take(k + 1)) =~= jump_parts(views(occ@), ss.take(k as int)).push(
                    jump_line(views(occ@), ss[k as int]),
                ));
                lemma_concat_push(jump_parts(views(occ@), ss.take(k as int)), jump_line(views(occ@), ss[k as int]));
            }
            write_jump(&mut acc, occ, &syms[k]);
            k += 1;
        }
        assert(ss.take(ss.len() as int) =~= ss);
        acc
    }
}

proof fn lemma_distinct_empty(s: Seq<Seq<char>>)
    ensures
        distinct(s).len() == 0 <==> s.len() == 0,
    decreases s.len(),
{
    if s.len() > 0 {
        let p = distinct(s.drop_last());
        if p.contains(s.last()) {
            assert(p.len() > 0);
        } else {
            assert(p.push(s.last()).len() > 0);
        }
    }
}

/// When the paths of `s` are all one path, the results in that path are all
/// of `s`.
proof fn lemma_single_path(s: Seq<OccView>)
    requires
        distinct(path_seq(s)).len() == 1,
    ensures
        at_path(s, distinct(path_seq(s))[0]) == s,
    decreases s.len(),
{
    let d = distinct(path_seq(s));
    assert(path_seq(s).drop_last() =~= path_seq(s.drop_last()));
    assert(s.len() > 0) by {
        lemma_distinct_empty(path_seq(s));
    }
    assert(path_seq(s).last() == s.last().path);
    let p = distinct(path_seq(s.drop_last()));
    if p.contains(s.last().path) {
        lemma_single_path(s.drop_last());
        assert(p[0] == s.last().path);
    } else {
        lemma_distinct_empty(path_seq(s.drop_last()));
        assert(s.drop_last().len() == 0);
        assert(d[0] == s.last().path);
        assert(at_path(s.drop_last(), d[0]) =~= seq![]);
    }
    assert(s.drop_last().push(s.last()) =~= s);
}

/// A symbol with exactly one definition, across all files, has a jump entry,
/// and it gives that definition's file and line.
pub proof fn lemma_unique_definition_jumps(occ: Seq<OccView>, sym: Seq<char>)
    requires
        select(occ, sym, AnalysisKind::Def).len() == 1,
    ensures
        has_jump(occ, sym),
        jump_path(occ, sym) == select(occ, sym, AnalysisKind::Def)[0].path,
        jump_lineno(occ, sym) == select(occ, sym, AnalysisKind::Def)[0].lineno,
        jump_line(occ, sym).len() > 0,
{
    let sel = select(occ, sym, AnalysisKind::Def);
    assert(sel.drop_last() =~= Seq::<OccView>::empty());
    assert(path_seq(sel).drop_last() =~= path_seq(sel.drop_last()));
    assert(distinct(path_seq(sel.drop_last())) =~= Seq::<Seq<char>>::empty());
    assert(distinct(path_seq(sel)) =~= seq![sel[0].path]);
    lemma_single_path(sel);
}

/// A symbol with no definition, or with two or more (in one file or in
/// several), has no jump entry.
pub proof fn lemma_ambiguous_definition_no_jump(occ: Seq<OccView>, sym: Seq<char>)
    requires
        select(occ, sym, AnalysisKind::Def).len() != 1,
    ensures
        !has_jump(occ, sym),
        jump_line(occ, sym) == Seq::<char>::empty(),
{
    let sel = select(occ, sym, AnalysisKind::Def);
    if distinct(path_seq(sel)).len() == 1 {
        lemma_single_path(sel);
    }
}

} // verus!