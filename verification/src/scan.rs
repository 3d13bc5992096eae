//! Turning files into a [`Report`].
//!
//! File selection is the caller's: it walks the inputs and reads each file.
//! Everything after that (which parsers run, what each contributes, and the
//! order of the report) is here.

use vstd::prelude::*;

use crate::model::{
    DirectiveView, ErrorView, IgnoreDirective, Report, ReportError, Tool, REPORT_VERSION, all_tools,
    directives_view, errors_view, directives_sorted, errors_sorted, sorted_view, sorted_errors,
};
use crate::source::{Language, SourceFile, SourceView, display_path, display_path_spec, language_of_path};
use crate::tools::{RegisteredParser, ToolParser, applies_spec, lemma_parse_from, parse_spec, registry_for, selected, tools_of};
use crate::tools::llmlint::{LlmlintParser, ll_errors};

verus! {

/// What to look for in the selected files.
#[derive(Debug, Clone)]
pub struct ScanOptions {
    /// Only report these tools. Empty means every registered parser.
    pub tools: Vec<Tool>,
}

impl ScanOptions {
    /// Every registered parser.
    pub fn default() -> (o: ScanOptions)
        ensures
            o.tools@.len() == 0,
    {
        ScanOptions { tools: Vec::new() }
    }
}

/// A path the scan could not even begin on.
#[derive(Debug, Clone, PartialEq, Eq)]
pub enum ScanError {
    /// An input path does not exist or could not be walked.
    Path {
        /// The offending path, as the user wrote it.
        path: String,
        /// The underlying reason.
        message: String,
    },
}

impl ScanError {
    /// `cannot read <path>: <message>`.
    pub fn message(&self) -> (m: String)
        ensures
            m@ == (match self {
                ScanError::Path { path, message } => "cannot read "@ + path@ + ": "@ + message@,
            }),
    {
        match self {
            ScanError::Path { path, message } => {
                let mut m = "cannot read ".to_owned();
                m.append(path.as_str());
                m.append(": ");
                m.append(message.as_str());
                m
            },
        }
    }
}

/// One file handed to a scan, as its caller read it.
pub enum Input {
    /// A file whose contents were read.
    Source(SourceFile),
    /// A file that could not be read: its path, and why.
    Unreadable { path: String, message: String },
}

/// What the parser for `t` contributes in `f`: nothing unless it reads `f`'s
/// language.
pub open spec fn tool_records(t: Tool, f: SourceView) -> Seq<DirectiveView> {
    if applies_spec(t, f.language) {
        parse_spec(t, f)
    } else {
        Seq::empty()
    }
}

/// The records of the first `j` tools of `ts`, one tool after another.
pub open spec fn records_upto(ts: Seq<Tool>, f: SourceView, j: int) -> Seq<DirectiveView>
    decreases j,
{
    if j <= 0 || j > ts.len() {
        Seq::empty()
    } else {
        records_upto(ts, f, j - 1) + tool_records(ts[j - 1], f)
    }
}

/// The tools a filter naming `tools` runs, in registry order.
pub open spec fn run_tools(tools: Seq<Tool>) -> Seq<Tool> {
    all_tools().filter(|t: Tool| selected(tools, t))
}

/// Every record the selected parsers find in `f`, in registry order.
pub open spec fn file_records(tools: Seq<Tool>, f: SourceView) -> Seq<DirectiveView> {
    records_upto(run_tools(tools), f, run_tools(tools).len() as int)
}

/// What the parser for `t` raises in `f`: llmlint's unclosed blocks.
pub open spec fn tool_errors(t: Tool, f: SourceView) -> Seq<ErrorView> {
    if t == Tool::Llmlint && applies_spec(t, f.language) {
        ll_errors(f)
    } else {
        Seq::empty()
    }
}

/// The errors of the first `j` tools of `ts`.
pub open spec fn errors_upto(ts: Seq<Tool>, f: SourceView, j: int) -> Seq<ErrorView>
    decreases j,
{
    if j <= 0 || j > ts.len() {
        Seq::empty()
    } else {
        errors_upto(ts, f, j - 1) + tool_errors(ts[j - 1], f)
    }
}

/// The errors a scan of `f` raises: llmlint's unclosed blocks, when llmlint
/// runs.
pub open spec fn file_errors(tools: Seq<Tool>, f: SourceView) -> Seq<ErrorView> {
    errors_upto(run_tools(tools), f, run_tools(tools).len() as int)
}

/// The records one input contributes.
pub open spec fn input_records(tools: Seq<Tool>, i: Input) -> Seq<DirectiveView> {
    match i {
        Input::Source(f) => file_records(tools, f@),
        Input::Unreadable { .. } => Seq::empty(),
    }
}

/// The errors one input contributes: an unreadable file is one, unless no
/// parser could have read it anyway.
pub open spec fn input_errors(tools: Seq<Tool>, i: Input) -> Seq<ErrorView> {
    match i {
        Input::Source(f) => file_errors(tools, f@),
        Input::Unreadable { path, message } => if language_of_path(path@) != Language::Unknown {
            seq![ErrorView { path: display_path_spec(path@), message: message@ }]
        } else {
            Seq::empty()
        },
    }
}

/// The records of the first `j` inputs.
pub open spec fn all_records(tools: Seq<Tool>, inputs: Seq<Input>, j: int) -> Seq<DirectiveView>
    decreases j,
{
    if j <= 0 || j > inputs.len() {
        Seq::empty()
    } else {
        all_records(tools, inputs, j - 1) + input_records(tools, inputs[j - 1])
    }
}

/// The errors of the first `j` inputs.
pub open spec fn all_errors(tools: Seq<Tool>, inputs: Seq<Input>, j: int) -> Seq<ErrorView>
    decreases j,
{
    if j <= 0 || j > inputs.len() {
        Seq::empty()
    } else {
        all_errors(tools, inputs, j - 1) + input_errors(tools, inputs[j - 1])
    }
}

/// Append what the parsers `ps` find in `file` to the records and errors.
fn collect(file: &SourceFile, ps: &Vec<RegisteredParser>, ignores: &mut Vec<IgnoreDirective>, errors: &mut Vec<ReportError>)
    ensures
        directives_view(final(ignores)@) == directives_view(old(ignores)@) + records_upto(tools_of(ps@), file@, ps@.len() as int),
        errors_view(final(errors)@) == errors_view(old(errors)@) + errors_upto(tools_of(ps@), file@, ps@.len() as int),
{
    let ghost ts = tools_of(ps@);
    let ghost i0 = directives_view(ignores@);
    let ghost e0 = errors_view(errors@);
    let mut k: usize = 0;
    while k < ps.len()
        invariant
            ts == tools_of(ps@),
            i0 == directives_view(old(ignores)@),
            e0 == errors_view(old(errors)@),
            k <= ps@.len(),
            directives_view(ignores@) == i0 + records_upto(ts, file@, k as int),
            errors_view(errors@) == e0 + errors_upto(ts, file@, k as int),
        decreases ps@.len() - k,
    {
        let p = ps[k];
        proof { assert(ts[k as int] == p.tool); }
        let ghost before_i = directives_view(ignores@);
        let ghost before_e = errors_view(errors@);
        if p.applies_to(file) {
            if p.tool == Tool::Llmlint {
                let scanned = LlmlintParser.scan(file);
                let mut ds = scanned.directives;
                let mut es = scanned.errors;
                ignores.append(&mut ds);
                errors.append(&mut es);
            } else {
                let mut ds = p.parse(file);
                ignores.append(&mut ds);
            }
        }
        proof {
            assert(directives_view(ignores@) =~= before_i + tool_records(p.tool, file@));
            assert(i0 + records_upto(ts, file@, k + 1) =~= before_i + tool_records(p.tool, file@));
            assert(errors_view(errors@) =~= before_e + tool_errors(p.tool, file@));
            assert(e0 + errors_upto(ts, file@, k + 1) =~= before_e + tool_errors(p.tool, file@));
        }
        k = k + 1;
    }
}

/// Every directive the selected parsers find in one file already in memory,
/// in report order, with the errors the scan raises.
pub fn scan_source(file: &SourceFile, options: &ScanOptions) -> (r: Report)
    ensures
        r.version == REPORT_VERSION,
        directives_view(r.ignores@) == sorted_view(file_records(options.tools@, file@)),
        errors_view(r.errors@) == sorted_errors(file_errors(options.tools@, file@)),
        directives_sorted(directives_view(r.ignores@)),
        directives_view(r.ignores@).to_multiset() == file_records(options.tools@, file@).to_multiset(),
        errors_sorted(errors_view(r.errors@)),
        errors_view(r.errors@).to_multiset() == file_errors(options.tools@, file@).to_multiset(),
{
    let parsers = registry_for(options.tools.as_slice());
    let mut report = Report::new();
    proof {
        assert(directives_view(report.ignores@) =~= Seq::<DirectiveView>::empty());
        assert(errors_view(report.errors@) =~= Seq::<ErrorView>::empty());
    }
    collect(file, &parsers, &mut report.ignores, &mut report.errors);
    proof {
        assert(directives_view(report.ignores@) =~= file_records(options.tools@, file@));
        assert(errors_view(report.errors@) =~= file_errors(options.tools@, file@));
    }
    report.sort();
    report
}

/// Every directive in `files`, in report order.
///
/// A file in a language no parser reads is skipped; a file that could not be
/// read becomes a report error.
pub fn scan_files(files: &Vec<Input>, options: &ScanOptions) -> (r: Report)
    ensures
        r.version == REPORT_VERSION,
        directives_view(r.ignores@) == sorted_view(all_records(options.tools@, files@, files@.len() as int)),
        errors_view(r.errors@) == sorted_errors(all_errors(options.tools@, files@, files@.len() as int)),
        directives_sorted(directives_view(r.ignores@)),
        directives_view(r.ignores@).to_multiset() == all_records(options.tools@, files@, files@.len() as int).to_multiset(),
        errors_sorted(errors_view(r.errors@)),
        errors_view(r.errors@).to_multiset() == all_errors(options.tools@, files@, files@.len() as int).to_multiset(),
{
    let parsers = registry_for(options.tools.as_slice());
    let mut report = Report::new();
    proof {
        assert(directives_view(report.ignores@) =~= Seq::<DirectiveView>::empty());
        assert(errors_view(report.errors@) =~= Seq::<ErrorView>::empty());
    }
    let mut i: usize = 0;
    while i < files.len()
        invariant
            tools_of(parsers@) == run_tools(options.tools@),
            report.version == REPORT_VERSION,
            i <= files@.len(),
            directives_view(report.ignores@) == all_records(options.tools@, files@, i as int),
            errors_view(report.errors@) == all_errors(options.tools@, files@, i as int),
        decreases files@.len() - i,
    {
        let ghost before_i = directives_view(report.ignores@);
        let ghost before_e = errors_view(report.errors@);
        match &files[i] {
            Input::Source(file) => {
                if file.language().is_scannable() {
                    collect(file, &parsers, &mut report.ignores, &mut report.errors);
                } else {
                    proof {
                        lemma_unknown_records(run_tools(options.tools@), file@, run_tools(options.tools@).len() as int);
                    }
                }
            },
            Input::Unreadable { path, message } => {
                if Language::from_path(path.as_str()).is_scannable() {
                    let e = ReportError { path: display_path(path.as_str()), message: message.clone() };
                    report.errors.push(e);
                }
            },
        }
        proof {
            assert(directives_view(report.ignores@) =~= before_i + input_records(options.tools@, files@[i as int]));
            assert(errors_view(report.errors@) =~= before_e + input_errors(options.tools@, files@[i as int]));
        }
        i = i + 1;
    }
    report.sort();
    report
}

/// No parser reads a file in an unknown language.
pub proof fn lemma_unknown_records(ts: Seq<Tool>, f: SourceView, j: int)
    requires
        f.language == Language::Unknown,
    ensures
        records_upto(ts, f, j) == Seq::<DirectiveView>::empty(),
        errors_upto(ts, f, j) == Seq::<ErrorView>::empty(),
    decreases j,
{
    if 0 < j <= ts.len() {
        lemma_unknown_records(ts, f, j - 1);
        assert(records_upto(ts, f, j) =~= Seq::<DirectiveView>::empty());
        assert(errors_upto(ts, f, j) =~= Seq::<ErrorView>::empty());
    }
}

/// A record of the first `j` tools of `ts` names the file and one of those
/// tools, whose parser reads the file's language.
proof fn lemma_records_upto_from(ts: Seq<Tool>, f: SourceView, j: int)
    ensures
        forall|k: int| 0 <= k < records_upto(ts, f, j).len() ==> {
            let d = #[trigger] records_upto(ts, f, j)[k];
            &&& d.path == f.display_path
            &&& exists|i: int| 0 <= i < j && i < ts.len() && ts[i] == d.tool
            &&& applies_spec(d.tool, f.language)
        },
    decreases j,
{
    if 0 < j <= ts.len() {
        lemma_records_upto_from(ts, f, j - 1);
        let prev = records_upto(ts, f, j - 1);
        let t = ts[j - 1];
        let mine = tool_records(t, f);
        if applies_spec(t, f.language) {
            lemma_parse_from(t, f);
        }
        let all = records_upto(ts, f, j);
        assert(all == prev + mine);
        assert forall|k: int| 0 <= k < all.len() implies {
            let d = #[trigger] all[k];
            &&& d.path == f.display_path
            &&& exists|i: int| 0 <= i < j && i < ts.len() && ts[i] == d.tool
            &&& applies_spec(d.tool, f.language)
        } by {
            if k < prev.len() {
                assert(all[k] == prev[k]);
            } else {
                assert(all[k] == mine[k - prev.len()]);
                assert(ts[j - 1] == all[k].tool);
            }
        }
    }
}

/// Each record a scan finds in a file names that file and is filed under the
/// tool whose parser found it: one the filter selected, whose parser reads
/// the file's language.
pub proof fn law_records_name_their_file_and_tool(tools: Seq<Tool>, f: SourceView)
    ensures
        forall|k: int| 0 <= k < file_records(tools, f).len() ==> {
            let d = #[trigger] file_records(tools, f)[k];
            &&& d.path == f.display_path
            &&& selected(tools, d.tool)
            &&& applies_spec(d.tool, f.language)
        },
{
    let ts = run_tools(tools);
    let pred = |t: Tool| selected(tools, t);
    all_tools().filter_lemma(pred);
    lemma_records_upto_from(ts, f, ts.len() as int);
    let rs = file_records(tools, f);
    assert forall|k: int| 0 <= k < rs.len() implies selected(tools, (#[trigger] rs[k]).tool) by {
        let i = choose|i: int| 0 <= i < ts.len() && ts[i] == rs[k].tool;
        assert(pred(ts[i]));
    }
}

} // verus!
