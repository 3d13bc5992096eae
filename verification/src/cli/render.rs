//! Rendering a [`Report`] for people.
//!
//! The report proper is the text meant for stdout, one line per suppression;
//! the narration (the summary line and any scan errors) is the text meant for
//! stderr. Whether either is colored is the caller's decision, a plain `bool`.

use vstd::prelude::*;

use crate::model::{
    Change, DirectiveView, ErrorView, IgnoreDirective, Report, ReportError, directives_view, errors_view,
    scope_name, tool_name,
};
use crate::text::{decimal, digit, push_char, push_decimal};

verus! {

/// How a span of terminal text is styled: an ANSI foreground color (0 to 7),
/// bold, dimmed.
#[derive(Debug, Clone, Copy, PartialEq, Eq, Structural)]
pub struct Look {
    pub fg: Option<u8>,
    pub bold: bool,
    pub dimmed: bool,
}

/// The SGR codes that open a span styled `l`: effects first, then the color.
pub open spec fn sgr_open(l: Look) -> Seq<char> {
    (if l.bold { "\u{1b}[1m"@ } else { Seq::empty() }) + (if l.dimmed { "\u{1b}[2m"@ } else { Seq::empty() }) + match l.fg {
        Some(c) => "\u{1b}[3"@ + seq![digit(c as int)] + "m"@,
        None => Seq::empty(),
    }
}

/// The SGR code that closes a span styled `l`: the reset, unless there is
/// nothing to reset.
pub open spec fn sgr_close(l: Look) -> Seq<char> {
    if l.fg.is_some() || l.bold || l.dimmed {
        "\u{1b}[0m"@
    } else {
        Seq::empty()
    }
}

/// `<anstyle::Style as Display>::fmt` for the style `look` describes: the
/// effect codes (bold, then dimmed) followed by the foreground color code.
#[verifier::external_body]
fn style_open(look: Look) -> (r: String)
    requires
        look.fg matches Some(c) ==> c < 8,
    ensures
        r@ == sgr_open(look),
{
    let effects = anstyle::Effects::new().set(anstyle::Effects::BOLD, look.bold).set(anstyle::Effects::DIMMED, look.dimmed);
    let fg = match look.fg {
        Some(c) => anstyle::Ansi256Color(c).into_ansi().map(anstyle::Color::Ansi),
        None => None,
    };
    let style = anstyle::Style::new().fg_color(fg).effects(effects);
    format!("{style}")
}

/// The alternate form of `<anstyle::Style as Display>::fmt` for the style
/// `look` describes: the reset code, elided for a plain style.
#[verifier::external_body]
fn style_close(look: Look) -> (r: String)
    requires
        look.fg matches Some(c) ==> c < 8,
    ensures
        r@ == sgr_close(look),
{
    let effects = anstyle::Effects::new().set(anstyle::Effects::BOLD, look.bold).set(anstyle::Effects::DIMMED, look.dimmed);
    let fg = match look.fg {
        Some(c) => anstyle::Ansi256Color(c).into_ansi().map(anstyle::Color::Ansi),
        None => None,
    };
    let style = anstyle::Style::new().fg_color(fg).effects(effects);
    format!("{style:#}")
}

/// The color roles of the human line, one per field a reader scans for.
#[derive(Debug, Clone, Copy, PartialEq, Eq, Structural)]
pub enum Role {
    /// `path:line:column`.
    Location,
    /// The tool whose rule is being silenced.
    Tool,
    /// The named rules.
    Rules,
    /// The `*` of a suppression that names no rules.
    Blanket,
    /// How far the directive reaches.
    Scope,
    /// The `(justification edited)` token.
    Edited,
    /// The stated justification, and the `--` that introduces it.
    Reason,
    /// The `notignored:` label the summary opens with, and its `in`.
    Label,
    /// The summary's count when the scan found something.
    Found,
    /// The summary's count when it found nothing.
    Clean,
}

/// The style of each role.
pub open spec fn role_look(r: Role) -> Look {
    match r {
        Role::Location => Look { fg: Some(6), bold: false, dimmed: false },
        Role::Tool => Look { fg: Some(5), bold: true, dimmed: false },
        Role::Rules => Look { fg: Some(3), bold: true, dimmed: false },
        Role::Blanket => Look { fg: Some(1), bold: true, dimmed: false },
        Role::Scope => Look { fg: Some(4), bold: false, dimmed: false },
        Role::Edited => Look { fg: Some(2), bold: false, dimmed: false },
        Role::Reason => Look { fg: None, bold: false, dimmed: true },
        Role::Label => Look { fg: None, bold: false, dimmed: true },
        Role::Found => Look { fg: Some(3), bold: true, dimmed: false },
        Role::Clean => Look { fg: Some(2), bold: true, dimmed: false },
    }
}

/// The style of a role.
pub fn look(r: Role) -> (l: Look)
    ensures
        l == role_look(r),
{
    match r {
        Role::Location => Look { fg: Some(6), bold: false, dimmed: false },
        Role::Tool => Look { fg: Some(5), bold: true, dimmed: false },
        Role::Rules => Look { fg: Some(3), bold: true, dimmed: false },
        Role::Blanket => Look { fg: Some(1), bold: true, dimmed: false },
        Role::Scope => Look { fg: Some(4), bold: false, dimmed: false },
        Role::Edited => Look { fg: Some(2), bold: false, dimmed: false },
        Role::Reason => Look { fg: None, bold: false, dimmed: true },
        Role::Label => Look { fg: None, bold: false, dimmed: true },
        Role::Found => Look { fg: Some(3), bold: true, dimmed: false },
        Role::Clean => Look { fg: Some(2), bold: true, dimmed: false },
    }
}

/// `text` in `role`'s style when `color` is on, else plain.
pub open spec fn painted(text: Seq<char>, role: Role, color: bool) -> Seq<char> {
    if color {
        sgr_open(role_look(role)) + text + sgr_close(role_look(role))
    } else {
        text
    }
}

/// Wrap `text` in `role`'s SGR codes when `color` is on, else return it plain.
pub fn paint(text: &str, role: Role, color: bool) -> (r: String)
    ensures
        r@ == painted(text@, role, color),
{
    if color {
        let l = look(role);
        let mut r = style_open(l);
        r.append(text);
        let close = style_close(l);
        r.append(close.as_str());
        r
    } else {
        text.to_owned()
    }
}

/// `parts` joined with `sep`.
pub open spec fn join_with(parts: Seq<Seq<char>>, sep: Seq<char>) -> Seq<char>
    decreases parts.len(),
{
    if parts.len() == 0 {
        Seq::empty()
    } else if parts.len() == 1 {
        parts[0]
    } else {
        join_with(parts.drop_last(), sep) + sep + parts.last()
    }
}

/// The strings of `parts` joined with `sep`.
pub fn join(parts: &Vec<String>, sep: &str) -> (r: String)
    ensures
        r@ == join_with(crate::model::strings_view(parts@), sep@),
{
    let ghost pv = crate::model::strings_view(parts@);
    let mut r = String::new();
    let mut k: usize = 0;
    proof { assert(pv.take(0) =~= Seq::<Seq<char>>::empty()); }
    while k < parts.len()
        invariant
            pv == crate::model::strings_view(parts@),
            k <= parts@.len(),
            r@ == join_with(pv.take(k as int), sep@),
        decreases parts@.len() - k,
    {
        let ghost before = r@;
        if k > 0 {
            r.append(sep);
        }
        r.append(parts[k].as_str());
        proof {
            assert(pv[k as int] == parts@[k as int]@);
            assert(pv.take(k + 1).drop_last() =~= pv.take(k as int));
            if k == 0 {
                assert(r@ =~= pv[0]);
            } else {
                assert(r@ =~= before + sep@ + pv[k as int]);
            }
        }
        k = k + 1;
    }
    proof { assert(pv.take(pv.len() as int) =~= pv); }
    r
}

/// `1 file` / `2 files`.
pub open spec fn plural(count: nat, one: Seq<char>, many: Seq<char>) -> Seq<char> {
    decimal(count) + " "@ + if count == 1 { one } else { many }
}

fn plural_exec(count: usize, one: &str, many: &str) -> (r: String)
    ensures
        r@ == plural(count as nat, one@, many@),
{
    let mut r = String::new();
    push_decimal(&mut r, count as u64);
    r.append(" ");
    if count == 1 {
        r.append(one);
    } else {
        r.append(many);
    }
    proof { assert(r@ =~= plural(count as nat, one@, many@)); }
    r
}

/// One suppression as `path:line:column tool rules (scope) -- reason`: a
/// blanket suppression's rules are `*`, a rewritten justification says so
/// after the scope, and no reason means no `-- …` tail.
pub open spec fn human_line_spec(d: DirectiveView, color: bool) -> Seq<char> {
    let rules = if d.rules.len() == 0 {
        painted("*"@, Role::Blanket, color)
    } else {
        painted(join_with(d.rules, ","@), Role::Rules, color)
    };
    let location = d.path + ":"@ + decimal(d.line as nat) + ":"@ + decimal(d.column as nat);
    painted(location, Role::Location, color) + " "@ + painted(tool_name(d.tool), Role::Tool, color) + " "@ + rules + " "@
        + painted("("@ + scope_name(d.scope) + ")"@, Role::Scope, color) + (if d.change == Some(Change::JustificationEdited) {
        " "@ + painted("(justification edited)"@, Role::Edited, color)
    } else {
        Seq::empty()
    }) + match d.reason {
        Some(r) => " "@ + painted("-- "@ + r, Role::Reason, color),
        None => Seq::empty(),
    }
}

/// One suppression as a line of the human report.
pub fn human_line(d: &IgnoreDirective, color: bool) -> (r: String)
    ensures
        r@ == human_line_spec(d@, color),
{
    let rules = if d.rules.len() == 0 {
        paint("*", Role::Blanket, color)
    } else {
        let joined = join(&d.rules, ",");
        paint(joined.as_str(), Role::Rules, color)
    };
    let mut location = d.path.clone();
    location.append(":");
    push_decimal(&mut location, d.line as u64);
    location.append(":");
    push_decimal(&mut location, d.column as u64);
    let mut line = paint(location.as_str(), Role::Location, color);
    line.append(" ");
    let tool = d.tool.to_string();
    line.append(paint(tool.as_str(), Role::Tool, color).as_str());
    line.append(" ");
    line.append(rules.as_str());
    line.append(" ");
    let mut scope = "(".to_owned();
    scope.append(d.scope.as_str());
    scope.append(")");
    line.append(paint(scope.as_str(), Role::Scope, color).as_str());
    let ghost head = line@;
    if d.change == Some(Change::JustificationEdited) {
        line.append(" ");
        line.append(paint("(justification edited)", Role::Edited, color).as_str());
    }
    let ghost mid = line@;
    match &d.reason {
        Some(reason) => {
            line.append(" ");
            let mut tail = "-- ".to_owned();
            tail.append(reason.as_str());
            line.append(paint(tail.as_str(), Role::Reason, color).as_str());
        },
        None => {},
    }
    proof {
        assert(location@ =~= d@.path + ":"@ + decimal(d.line as nat) + ":"@ + decimal(d.column as nat));
        assert(line@ =~= human_line_spec(d@, color));
    }
    line
}

/// How a classified report's suppressions divide between the two things a
/// change can do to one.
#[derive(Debug, Clone, Copy, PartialEq, Eq, Structural)]
pub struct ChangeCounts {
    /// Suppressions the change wrote.
    pub added: usize,
    /// Suppressions whose stated justification is what the change rewrote.
    pub justification_edited: usize,
}

/// Whether a record carries a verdict.
pub open spec fn is_classified(d: DirectiveView) -> bool {
    d.change.is_some()
}

/// Whether a record's verdict is a rewritten justification.
pub open spec fn is_edited(d: DirectiveView) -> bool {
    d.change == Some(Change::JustificationEdited)
}

/// How `ds` divides, or `None` when no record carries a verdict; a record
/// without one in a classified report counts as added.
pub open spec fn counts_spec(ds: Seq<DirectiveView>) -> Option<(nat, nat)> {
    if !(exists|i: int| 0 <= i < ds.len() && is_classified(#[trigger] ds[i])) {
        None
    } else {
        let edited = ds.filter(|d: DirectiveView| is_edited(d)).len();
        Some(((ds.len() - edited) as nat, edited))
    }
}

/// A classified report divides whole: its added and its edited suppressions
/// are all of it.
pub proof fn law_counts_cover_the_report(ds: Seq<DirectiveView>)
    ensures
        counts_spec(ds) matches Some((a, e)) ==> a + e == ds.len(),
{
    ds.lemma_filter_len(|d: DirectiveView| is_edited(d));
}

impl ChangeCounts {
    /// How `report` divides, or `None` when it carries no classification.
    pub fn of(report: &Report) -> (r: Option<ChangeCounts>)
        ensures
            match (r, counts_spec(directives_view(report.ignores@))) {
                (Some(c), Some((a, e))) => c.added as nat == a && c.justification_edited as nat == e,
                (None, None) => true,
                _ => false,
            },
    {
        let ghost ds = directives_view(report.ignores@);
        let ghost pred = |d: DirectiveView| is_edited(d);
        let mut any = false;
        let mut edited: usize = 0;
        let mut i: usize = 0;
        proof { assert(ds.take(0).filter(pred) =~= Seq::<DirectiveView>::empty()); }
        while i < report.ignores.len()
            invariant
                ds == directives_view(report.ignores@),
                pred == (|d: DirectiveView| is_edited(d)),
                i <= ds.len(),
                any == exists|k: int| 0 <= k < i && is_classified(#[trigger] ds[k]),
                edited as int == ds.take(i as int).filter(pred).len(),
                edited <= i,
            decreases ds.len() - i,
        {
            let d = &report.ignores[i];
            proof {
                assert(ds[i as int] == d@);
                assert(ds.take(i + 1) =~= ds.take(i as int).push(d@));
                ds.take(i as int).lemma_filter_push(d@, pred);
            }
            if d.change.is_some() {
                any = true;
            }
            if d.change == Some(Change::JustificationEdited) {
                edited = edited + 1;
            }
            i = i + 1;
        }
        proof { assert(ds.take(ds.len() as int) =~= ds); }
        if !any {
            None
        } else {
            Some(ChangeCounts { added: report.ignores.len() - edited, justification_edited: edited })
        }
    }
}

/// How many of the first `j` records open a path no earlier record has.
pub open spec fn distinct_upto(ds: Seq<DirectiveView>, j: int) -> nat
    decreases j,
{
    if j <= 0 || j > ds.len() {
        0
    } else {
        distinct_upto(ds, j - 1) + if exists|k: int| 0 <= k < j - 1 && #[trigger] ds[k].path == ds[j - 1].path {
            0nat
        } else {
            1nat
        }
    }
}

/// How many distinct files `ds` names.
pub open spec fn distinct_files(ds: Seq<DirectiveView>) -> nat {
    distinct_upto(ds, ds.len() as int)
}

fn count_files(ds: &Vec<IgnoreDirective>) -> (n: usize)
    ensures
        n as nat == distinct_files(directives_view(ds@)),
{
    let ghost dv = directives_view(ds@);
    let mut n: usize = 0;
    let mut i: usize = 0;
    while i < ds.len()
        invariant
            dv == directives_view(ds@),
            i <= dv.len(),
            n as nat == distinct_upto(dv, i as int),
            n <= i,
        decreases dv.len() - i,
    {
        let mut seen = false;
        let mut k: usize = 0;
        while k < i
            invariant
                dv == directives_view(ds@),
                k <= i < dv.len(),
                seen == exists|x: int| 0 <= x < k && #[trigger] dv[x].path == dv[i as int].path,
            decreases i - k,
        {
            proof {
                assert(dv[k as int] == ds@[k as int]@);
                assert(dv[i as int] == ds@[i as int]@);
            }
            if ds[k].path == ds[i].path {
                seen = true;
                proof { assert(dv[k as int].path == dv[i as int].path); }
            }
            k = k + 1;
        }
        if !seen {
            n = n + 1;
        }
        i = i + 1;
    }
    n
}

/// The summary's count role: the all-clear at zero, the found color otherwise.
pub open spec fn count_role(count: nat) -> Role {
    if count == 0 { Role::Clean } else { Role::Found }
}

/// The summary line: how many suppressions (or, classified, how many added
/// and how many rewritten justifications) in how many files.
pub open spec fn summary_spec(ds: Seq<DirectiveView>, color: bool) -> Seq<char> {
    let found = if ds.len() == 0 { Role::Clean } else { Role::Found };
    let tally = match counts_spec(ds) {
        Some((a, e)) => painted(decimal(a) + " added"@, count_role(a), color) + ", "@ + painted(
            plural(e, "justification"@, "justifications"@) + " edited"@,
            count_role(e),
            color,
        ),
        None => painted(plural(ds.len(), "ignore"@, "ignores"@), found, color),
    };
    painted("notignored:"@, Role::Label, color) + " "@ + tally + " "@ + painted("in"@, Role::Label, color) + " "@ + painted(
        plural(distinct_files(ds), "file"@, "files"@),
        found,
        color,
    ) + "\n"@
}

/// Every line of the human report, each newline-terminated.
pub open spec fn lines_spec(ds: Seq<DirectiveView>, color: bool) -> Seq<char>
    decreases ds.len(),
{
    if ds.len() == 0 {
        Seq::empty()
    } else {
        lines_spec(ds.drop_last(), color) + human_line_spec(ds.last(), color) + "\n"@
    }
}

/// The report as one line per suppression (the text for stdout) and the
/// summary line (the text for stderr), ANSI-colorized when `color` is set.
pub fn render_human_colored(report: &Report, color: bool) -> (r: (String, String))
    ensures
        r.0@ == lines_spec(directives_view(report.ignores@), color),
        r.1@ == summary_spec(directives_view(report.ignores@), color),
{
    let ghost ds = directives_view(report.ignores@);
    let mut out = String::new();
    let mut i: usize = 0;
    proof { assert(ds.take(0) =~= Seq::<DirectiveView>::empty()); }
    while i < report.ignores.len()
        invariant
            ds == directives_view(report.ignores@),
            i <= ds.len(),
            out@ == lines_spec(ds.take(i as int), color),
        decreases ds.len() - i,
    {
        let line = human_line(&report.ignores[i], color);
        out.append(line.as_str());
        out.append("\n");
        proof {
            assert(ds[i as int] == report.ignores@[i as int]@);
            assert(ds.take(i + 1).drop_last() =~= ds.take(i as int));
            assert(out@ =~= lines_spec(ds.take(i + 1), color));
        }
        i = i + 1;
    }
    proof { assert(ds.take(ds.len() as int) =~= ds); }
    let files = count_files(&report.ignores);
    let found = if report.ignores.len() == 0 { Role::Clean } else { Role::Found };
    let tally = match ChangeCounts::of(report) {
        Some(counts) => {
            let mut added = String::new();
            push_decimal(&mut added, counts.added as u64);
            added.append(" added");
            let mut t = paint(added.as_str(), if counts.added == 0 { Role::Clean } else { Role::Found }, color);
            t.append(", ");
            let mut edited = plural_exec(counts.justification_edited, "justification", "justifications");
            edited.append(" edited");
            let e = paint(edited.as_str(), if counts.justification_edited == 0 { Role::Clean } else { Role::Found }, color);
            t.append(e.as_str());
            t
        },
        None => {
            let p = plural_exec(report.ignores.len(), "ignore", "ignores");
            paint(p.as_str(), found, color)
        },
    };
    let mut err = paint("notignored:", Role::Label, color);
    err.append(" ");
    err.append(tally.as_str());
    err.append(" ");
    err.append(paint("in", Role::Label, color).as_str());
    err.append(" ");
    let f = plural_exec(files, "file", "files");
    err.append(paint(f.as_str(), found, color).as_str());
    err.append("\n");
    proof { assert(err@ =~= summary_spec(ds, color)); }
    (out, err)
}

/// The uncolored rendering: [`render_human_colored`] with color off.
pub fn render_human(report: &Report) -> (r: (String, String))
    ensures
        r.0@ == lines_spec(directives_view(report.ignores@), false),
        r.1@ == summary_spec(directives_view(report.ignores@), false),
{
    render_human_colored(report, false)
}

/// Every scan error as a `notignored: error: <path>: <message>` line.
pub open spec fn errors_text(es: Seq<ErrorView>) -> Seq<char>
    decreases es.len(),
{
    if es.len() == 0 {
        Seq::empty()
    } else {
        errors_text(es.drop_last()) + "notignored: error: "@ + es.last().path + ": "@ + es.last().message + "\n"@
    }
}

/// The text that narrates every scan error, meant for stderr whatever the
/// format.
pub fn narrate_errors(report: &Report) -> (r: String)
    ensures
        r@ == errors_text(errors_view(report.errors@)),
{
    let ghost es = errors_view(report.errors@);
    let mut r = String::new();
    let mut i: usize = 0;
    proof { assert(es.take(0) =~= Seq::<ErrorView>::empty()); }
    while i < report.errors.len()
        invariant
            es == errors_view(report.errors@),
            i <= es.len(),
            r@ == errors_text(es.take(i as int)),
        decreases es.len() - i,
    {
        let e = &report.errors[i];
        r.append("notignored: error: ");
        r.append(e.path.as_str());
        r.append(": ");
        r.append(e.message.as_str());
        r.append("\n");
        proof {
            assert(es[i as int] == e@);
            assert(es.take(i + 1).drop_last() =~= es.take(i as int));
            assert(r@ =~= errors_text(es.take(i + 1)));
        }
        i = i + 1;
    }
    proof { assert(es.take(es.len() as int) =~= es); }
    r
}

} // verus!
