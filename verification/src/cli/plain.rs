//! What a terminal shows of styled text: the characters left once every SGR
//! escape is taken out. Coloring the human report changes nothing else.

use vstd::prelude::*;

use crate::cli::render::{
    Look, Role, count_role, counts_spec, distinct_files, human_line_spec, join_with, lines_spec, painted, plural,
    role_look, sgr_close, sgr_open, summary_spec,
};
use crate::model::{Change, DirectiveView, Scope, Tool, scope_name, tool_name};
use crate::text::{decimal, digit};

verus! {

/// The escape character every SGR sequence opens with.
pub open spec fn esc() -> char {
    '\u{1b}'
}

/// The characters of `s` a terminal shows, reading from a state that is
/// inside an escape sequence (`inside`) or not: an escape runs from `ESC` to
/// the next `m`.
pub open spec fn shown(s: Seq<char>, inside: bool) -> Seq<char>
    decreases s.len(),
{
    if s.len() == 0 {
        Seq::empty()
    } else {
        let c = s[0];
        let rest = s.subrange(1, s.len() as int);
        if inside {
            shown(rest, c != 'm')
        } else if c == esc() {
            shown(rest, true)
        } else {
            seq![c] + shown(rest, false)
        }
    }
}

/// Whether reading `s` from state `inside` ends inside an escape sequence.
pub open spec fn ends_inside(s: Seq<char>, inside: bool) -> bool
    decreases s.len(),
{
    if s.len() == 0 {
        inside
    } else {
        let c = s[0];
        let rest = s.subrange(1, s.len() as int);
        if inside {
            ends_inside(rest, c != 'm')
        } else {
            ends_inside(rest, c == esc())
        }
    }
}

/// `styled` shows exactly `text`, and every escape in it is closed.
pub open spec fn shows(styled: Seq<char>, text: Seq<char>) -> bool {
    shown(styled, false) == text && !ends_inside(styled, false)
}

/// Text with no escape character in it.
pub open spec fn no_esc(s: Seq<char>) -> bool {
    forall|i: int| 0 <= i < s.len() ==> s[i] != esc()
}

proof fn lemma_shown_cat(a: Seq<char>, b: Seq<char>, inside: bool)
    ensures
        shown(a + b, inside) == shown(a, inside) + shown(b, ends_inside(a, inside)),
        ends_inside(a + b, inside) == ends_inside(b, ends_inside(a, inside)),
    decreases a.len(),
{
    if a.len() == 0 {
        assert(a + b =~= b);
    } else {
        let c = a[0];
        assert((a + b)[0] == c);
        assert((a + b).subrange(1, (a + b).len() as int) =~= a.subrange(1, a.len() as int) + b);
        let next = if inside { c != 'm' } else { c == esc() };
        lemma_shown_cat(a.subrange(1, a.len() as int), b, next);
        if !inside && c != esc() {
            assert(shown(a + b, inside) =~= seq![c] + shown(a.subrange(1, a.len() as int) + b, false));
            assert(shown(a + b, inside) =~= shown(a, inside) + shown(b, ends_inside(a, inside)));
        }
    }
}

/// Styled pieces that each show their text show the two texts together.
proof fn lemma_shows_cat(x: Seq<char>, y: Seq<char>, u: Seq<char>, v: Seq<char>)
    requires
        shows(x, y),
        shows(u, v),
    ensures
        shows(x + u, y + v),
{
    lemma_shown_cat(x, u, false);
}

proof fn lemma_plain_shows(s: Seq<char>)
    requires
        no_esc(s),
    ensures
        shows(s, s),
    decreases s.len(),
{
    if s.len() > 0 {
        let rest = s.subrange(1, s.len() as int);
        assert(no_esc(rest)) by {
            assert forall|i: int| 0 <= i < rest.len() implies rest[i] != esc() by {
                assert(rest[i] == s[i + 1]);
            }
        }
        lemma_plain_shows(rest);
        assert(s[0] != esc());
        assert(shown(s, false) == seq![s[0]] + shown(rest, false));
        assert(s =~= seq![s[0]] + rest);
    } else {
        assert(s =~= Seq::<char>::empty());
    }
}

/// A run that ends at its first `m`, read from inside an escape, shows
/// nothing and closes it.
proof fn lemma_code_tail(s: Seq<char>)
    requires
        s.len() >= 1,
        s.last() == 'm',
        forall|i: int| 0 <= i < s.len() - 1 ==> s[i] != 'm',
    ensures
        shown(s, true) == Seq::<char>::empty(),
        !ends_inside(s, true),
    decreases s.len(),
{
    let rest = s.subrange(1, s.len() as int);
    if s.len() > 1 {
        assert(rest.last() == 'm');
        assert forall|i: int| 0 <= i < rest.len() - 1 implies rest[i] != 'm' by {
            assert(rest[i] == s[i + 1]);
        }
        assert(s[0] != 'm');
        lemma_code_tail(rest);
        assert(shown(s, true) == shown(rest, true));
        assert(ends_inside(s, true) == ends_inside(rest, true));
    } else {
        assert(s[0] == 'm');
        assert(rest.len() == 0);
        assert(shown(s, true) == shown(rest, false));
        assert(shown(rest, false) == Seq::<char>::empty());
        assert(ends_inside(s, true) == ends_inside(rest, false));
        assert(!ends_inside(rest, false));
    }
}

/// An escape sequence on its own shows nothing.
proof fn lemma_code(s: Seq<char>)
    requires
        s.len() >= 2,
        s[0] == esc(),
        s.last() == 'm',
        forall|i: int| 0 <= i < s.len() - 1 ==> s[i] != 'm',
    ensures
        shows(s, Seq::<char>::empty()),
{
    let rest = s.subrange(1, s.len() as int);
    assert(rest.last() == 'm');
    assert forall|i: int| 0 <= i < rest.len() - 1 implies rest[i] != 'm' by {
        assert(rest[i] == s[i + 1]);
    }
    lemma_code_tail(rest);
}

proof fn lemma_empty_shows()
    ensures
        shows(Seq::<char>::empty(), Seq::<char>::empty()),
{
}

proof fn lemma_open_shows(l: Look)
    ensures
        shows(sgr_open(l), Seq::<char>::empty()),
{
    reveal_strlit("\u{1b}[1m");
    reveal_strlit("\u{1b}[2m");
    reveal_strlit("\u{1b}[3");
    reveal_strlit("m");
    let b: Seq<char> = if l.bold { "\u{1b}[1m"@ } else { Seq::empty() };
    let d: Seq<char> = if l.dimmed { "\u{1b}[2m"@ } else { Seq::empty() };
    let f: Seq<char> = match l.fg {
        Some(c) => "\u{1b}[3"@ + seq![digit(c as int)] + "m"@,
        None => Seq::empty(),
    };
    if l.bold {
        lemma_code("\u{1b}[1m"@);
    }
    if l.dimmed {
        lemma_code("\u{1b}[2m"@);
    }
    match l.fg {
        Some(c) => {
            let code = "\u{1b}[3"@ + seq![digit(c as int)] + "m"@;
            assert(code.len() == 5);
            assert(code[0] == esc());
            assert(code[1] == '[');
            assert(code[2] == '3');
            assert(code[3] == digit(c as int));
            assert(code[4] == 'm');
            lemma_code(code);
        },
        None => {},
    }
    lemma_shows_cat(b, Seq::empty(), d, Seq::empty());
    assert(Seq::<char>::empty() + Seq::<char>::empty() =~= Seq::<char>::empty());
    lemma_shows_cat(b + d, Seq::empty(), f, Seq::empty());
    assert(sgr_open(l) =~= b + d + f);
}

proof fn lemma_close_shows(l: Look)
    ensures
        shows(sgr_close(l), Seq::<char>::empty()),
{
    reveal_strlit("\u{1b}[0m");
    if l.fg.is_some() || l.bold || l.dimmed {
        lemma_code("\u{1b}[0m"@);
    }
}

/// A painted span shows its text, colored or not.
proof fn lemma_painted_shows(text: Seq<char>, role: Role)
    requires
        no_esc(text),
    ensures
        shows(painted(text, role, true), text),
        shows(painted(text, role, false), text),
{
    let l = role_look(role);
    lemma_open_shows(l);
    lemma_close_shows(l);
    lemma_plain_shows(text);
    lemma_shows_cat(sgr_open(l), Seq::empty(), text, text);
    assert(Seq::<char>::empty() + text =~= text);
    lemma_shows_cat(sgr_open(l) + text, text, sgr_close(l), Seq::empty());
    assert(text + Seq::<char>::empty() =~= text);
}

proof fn lemma_no_esc_cat(a: Seq<char>, b: Seq<char>)
    requires
        no_esc(a),
        no_esc(b),
    ensures
        no_esc(a + b),
{
    assert forall|i: int| 0 <= i < (a + b).len() implies (a + b)[i] != esc() by {
        if i >= a.len() {
            assert((a + b)[i] == b[i - a.len()]);
        }
    }
}

proof fn lemma_decimal_plain(n: nat)
    ensures
        no_esc(decimal(n)),
    decreases n,
{
    if n >= 10 {
        lemma_decimal_plain(n / 10);
        assert forall|i: int| 0 <= i < decimal(n).len() implies decimal(n)[i] != esc() by {
            if i < decimal(n / 10).len() {
                assert(decimal(n)[i] == decimal(n / 10)[i]);
            }
        }
    }
}

proof fn lemma_join_plain(parts: Seq<Seq<char>>, sep: Seq<char>)
    requires
        no_esc(sep),
        forall|i: int| 0 <= i < parts.len() ==> no_esc(#[trigger] parts[i]),
    ensures
        no_esc(join_with(parts, sep)),
    decreases parts.len(),
{
    if parts.len() > 1 {
        lemma_join_plain(parts.drop_last(), sep);
        lemma_no_esc_cat(join_with(parts.drop_last(), sep), sep);
        lemma_no_esc_cat(join_with(parts.drop_last(), sep) + sep, parts.last());
    }
}

proof fn lemma_literals_plain()
    ensures
        no_esc(" "@),
        no_esc(":"@),
        no_esc(","@),
        no_esc("*"@),
        no_esc("("@),
        no_esc(")"@),
        no_esc("-- "@),
        no_esc("\n"@),
        no_esc(", "@),
        no_esc("(justification edited)"@),
        no_esc("notignored:"@),
        no_esc("in"@),
        no_esc(" added"@),
        no_esc(" edited"@),
        no_esc("justification"@),
        no_esc("justifications"@),
        no_esc("ignore"@),
        no_esc("ignores"@),
        no_esc("file"@),
        no_esc("files"@),
{
    reveal_strlit(" ");
    reveal_strlit(":");
    reveal_strlit(",");
    reveal_strlit("*");
    reveal_strlit("(");
    reveal_strlit(")");
    reveal_strlit("-- ");
    reveal_strlit("\n");
    reveal_strlit(", ");
    reveal_strlit("(justification edited)");
    reveal_strlit("notignored:");
    reveal_strlit("in");
    reveal_strlit(" added");
    reveal_strlit(" edited");
    reveal_strlit("justification");
    reveal_strlit("justifications");
    reveal_strlit("ignore");
    reveal_strlit("ignores");
    reveal_strlit("file");
    reveal_strlit("files");
}

proof fn lemma_names_plain(t: Tool, s: Scope)
    ensures
        no_esc(tool_name(t)),
        no_esc(scope_name(s)),
{
    reveal_strlit("eslint");
    reveal_strlit("biome");
    reveal_strlit("ruff");
    reveal_strlit("typescript");
    reveal_strlit("mypy");
    reveal_strlit("pyright");
    reveal_strlit("ty");
    reveal_strlit("rust");
    reveal_strlit("shellcheck");
    reveal_strlit("llmlint");
    reveal_strlit("line");
    reveal_strlit("next-line");
    reveal_strlit("file");
    reveal_strlit("block");
}

/// The text of a directive that reaches the terminal holds no escape
/// character: its path, its rules and its reason.
pub open spec fn plain_directive(d: DirectiveView) -> bool {
    &&& no_esc(d.path)
    &&& forall|i: int| 0 <= i < d.rules.len() ==> no_esc(#[trigger] d.rules[i])
    &&& d.reason matches Some(r) ==> no_esc(r)
}

proof fn lemma_line_shows(d: DirectiveView)
    requires
        plain_directive(d),
    ensures
        shows(human_line_spec(d, true), human_line_spec(d, false)),
{
    lemma_literals_plain();
    lemma_names_plain(d.tool, d.scope);
    lemma_decimal_plain(d.line as nat);
    lemma_decimal_plain(d.column as nat);
    let location = d.path + ":"@ + decimal(d.line as nat) + ":"@ + decimal(d.column as nat);
    lemma_no_esc_cat(d.path, ":"@);
    lemma_no_esc_cat(d.path + ":"@, decimal(d.line as nat));
    lemma_no_esc_cat(d.path + ":"@ + decimal(d.line as nat), ":"@);
    lemma_no_esc_cat(d.path + ":"@ + decimal(d.line as nat) + ":"@, decimal(d.column as nat));
    lemma_painted_shows(location, Role::Location);
    lemma_painted_shows(tool_name(d.tool), Role::Tool);
    let rules_role = if d.rules.len() == 0 { Role::Blanket } else { Role::Rules };
    let rules_text = if d.rules.len() == 0 { "*"@ } else { join_with(d.rules, ","@) };
    lemma_join_plain(d.rules, ","@);
    lemma_painted_shows(rules_text, rules_role);
    let scope = "("@ + scope_name(d.scope) + ")"@;
    lemma_no_esc_cat("("@, scope_name(d.scope));
    lemma_no_esc_cat("("@ + scope_name(d.scope), ")"@);
    lemma_painted_shows(scope, Role::Scope);
    lemma_plain_shows(" "@);
    let a = painted(location, Role::Location, true);
    let a0 = painted(location, Role::Location, false);
    lemma_shows_cat(a, a0, " "@, " "@);
    let b = a + " "@ + painted(tool_name(d.tool), Role::Tool, true);
    let b0 = a0 + " "@ + painted(tool_name(d.tool), Role::Tool, false);
    lemma_shows_cat(a + " "@, a0 + " "@, painted(tool_name(d.tool), Role::Tool, true), painted(tool_name(d.tool), Role::Tool, false));
    lemma_shows_cat(b, b0, " "@, " "@);
    let c = b + " "@ + painted(rules_text, rules_role, true);
    let c0 = b0 + " "@ + painted(rules_text, rules_role, false);
    lemma_shows_cat(b + " "@, b0 + " "@, painted(rules_text, rules_role, true), painted(rules_text, rules_role, false));
    lemma_shows_cat(c, c0, " "@, " "@);
    let e = c + " "@ + painted(scope, Role::Scope, true);
    let e0 = c0 + " "@ + painted(scope, Role::Scope, false);
    lemma_shows_cat(c + " "@, c0 + " "@, painted(scope, Role::Scope, true), painted(scope, Role::Scope, false));
    let edited: Seq<char> = if d.change == Some(Change::JustificationEdited) {
        " "@ + painted("(justification edited)"@, Role::Edited, true)
    } else {
        Seq::empty()
    };
    let edited0: Seq<char> = if d.change == Some(Change::JustificationEdited) {
        " "@ + painted("(justification edited)"@, Role::Edited, false)
    } else {
        Seq::empty()
    };
    lemma_painted_shows("(justification edited)"@, Role::Edited);
    lemma_shows_cat(" "@, " "@, painted("(justification edited)"@, Role::Edited, true), painted("(justification edited)"@, Role::Edited, false));
    lemma_empty_shows();
    lemma_shows_cat(e, e0, edited, edited0);
    let reason: Seq<char> = match d.reason {
        Some(r) => " "@ + painted("-- "@ + r, Role::Reason, true),
        None => Seq::empty(),
    };
    let reason0: Seq<char> = match d.reason {
        Some(r) => " "@ + painted("-- "@ + r, Role::Reason, false),
        None => Seq::empty(),
    };
    match d.reason {
        Some(r) => {
            lemma_no_esc_cat("-- "@, r);
            lemma_painted_shows("-- "@ + r, Role::Reason);
            lemma_shows_cat(" "@, " "@, painted("-- "@ + r, Role::Reason, true), painted("-- "@ + r, Role::Reason, false));
        },
        None => {},
    }
    lemma_shows_cat(e + edited, e0 + edited0, reason, reason0);
    assert(human_line_spec(d, true) =~= e + edited + reason);
    assert(human_line_spec(d, false) =~= e0 + edited0 + reason0);
}

/// Color is presentation only: with every SGR escape taken out, the colored
/// human report (its lines and its summary) reads exactly as the plain one,
/// for directives whose own text holds no escape character.
pub proof fn law_color_is_presentation_only(ds: Seq<DirectiveView>)
    requires
        forall|i: int| 0 <= i < ds.len() ==> plain_directive(#[trigger] ds[i]),
    ensures
        shows(lines_spec(ds, true), lines_spec(ds, false)),
        shows(summary_spec(ds, true), summary_spec(ds, false)),
    decreases ds.len(),
{
    lemma_literals_plain();
    if ds.len() > 0 {
        law_color_is_presentation_only(ds.drop_last());
        lemma_line_shows(ds.last());
        lemma_plain_shows("\n"@);
        lemma_shows_cat(lines_spec(ds.drop_last(), true), lines_spec(ds.drop_last(), false), human_line_spec(ds.last(), true), human_line_spec(ds.last(), false));
        lemma_shows_cat(
            lines_spec(ds.drop_last(), true) + human_line_spec(ds.last(), true),
            lines_spec(ds.drop_last(), false) + human_line_spec(ds.last(), false),
            "\n"@,
            "\n"@,
        );
    } else {
        lemma_empty_shows();
    }
    lemma_summary_shows(ds);
}

proof fn lemma_summary_shows(ds: Seq<DirectiveView>)
    ensures
        shows(summary_spec(ds, true), summary_spec(ds, false)),
{
    lemma_literals_plain();
    lemma_plain_shows(" "@);
    lemma_plain_shows(", "@);
    lemma_plain_shows("\n"@);
    let found = if ds.len() == 0 { Role::Clean } else { Role::Found };
    lemma_painted_shows("notignored:"@, Role::Label);
    lemma_painted_shows("in"@, Role::Label);
    let tally: Seq<char> = match counts_spec(ds) {
        Some((a, e)) => painted(decimal(a) + " added"@, count_role(a), true) + ", "@ + painted(
            plural(e, "justification"@, "justifications"@) + " edited"@,
            count_role(e),
            true,
        ),
        None => painted(plural(ds.len(), "ignore"@, "ignores"@), found, true),
    };
    let tally0: Seq<char> = match counts_spec(ds) {
        Some((a, e)) => painted(decimal(a) + " added"@, count_role(a), false) + ", "@ + painted(
            plural(e, "justification"@, "justifications"@) + " edited"@,
            count_role(e),
            false,
        ),
        None => painted(plural(ds.len(), "ignore"@, "ignores"@), found, false),
    };
    match counts_spec(ds) {
        Some((a, e)) => {
            lemma_decimal_plain(a);
            lemma_no_esc_cat(decimal(a), " added"@);
            lemma_painted_shows(decimal(a) + " added"@, count_role(a));
            lemma_plural_plain(e, "justification"@, "justifications"@);
            lemma_no_esc_cat(plural(e, "justification"@, "justifications"@), " edited"@);
            lemma_painted_shows(plural(e, "justification"@, "justifications"@) + " edited"@, count_role(e));
            lemma_shows_cat(
                painted(decimal(a) + " added"@, count_role(a), true),
                painted(decimal(a) + " added"@, count_role(a), false),
                ", "@,
                ", "@,
            );
            lemma_shows_cat(
                painted(decimal(a) + " added"@, count_role(a), true) + ", "@,
                painted(decimal(a) + " added"@, count_role(a), false) + ", "@,
                painted(plural(e, "justification"@, "justifications"@) + " edited"@, count_role(e), true),
                painted(plural(e, "justification"@, "justifications"@) + " edited"@, count_role(e), false),
            );
        },
        None => {
            lemma_plural_plain(ds.len(), "ignore"@, "ignores"@);
            lemma_painted_shows(plural(ds.len(), "ignore"@, "ignores"@), found);
        },
    }
    lemma_plural_plain(distinct_files(ds), "file"@, "files"@);
    let files = plural(distinct_files(ds), "file"@, "files"@);
    lemma_painted_shows(files, found);
    let p1 = painted("notignored:"@, Role::Label, true);
    let q1 = painted("notignored:"@, Role::Label, false);
    lemma_shows_cat(p1, q1, " "@, " "@);
    lemma_shows_cat(p1 + " "@, q1 + " "@, tally, tally0);
    lemma_shows_cat(p1 + " "@ + tally, q1 + " "@ + tally0, " "@, " "@);
    let pin = painted("in"@, Role::Label, true);
    let qin = painted("in"@, Role::Label, false);
    lemma_shows_cat(p1 + " "@ + tally + " "@, q1 + " "@ + tally0 + " "@, pin, qin);
    lemma_shows_cat(p1 + " "@ + tally + " "@ + pin, q1 + " "@ + tally0 + " "@ + qin, " "@, " "@);
    lemma_shows_cat(
        p1 + " "@ + tally + " "@ + pin + " "@,
        q1 + " "@ + tally0 + " "@ + qin + " "@,
        painted(files, found, true),
        painted(files, found, false),
    );
    lemma_shows_cat(
        p1 + " "@ + tally + " "@ + pin + " "@ + painted(files, found, true),
        q1 + " "@ + tally0 + " "@ + qin + " "@ + painted(files, found, false),
        "\n"@,
        "\n"@,
    );
}

proof fn lemma_plural_plain(count: nat, one: Seq<char>, many: Seq<char>)
    requires
        no_esc(one),
        no_esc(many),
    ensures
        no_esc(plural(count, one, many)),
{
    lemma_literals_plain();
    lemma_decimal_plain(count);
    lemma_no_esc_cat(decimal(count), " "@);
    lemma_no_esc_cat(decimal(count) + " "@, if count == 1 { one } else { many });
}

proof fn lemma_painted_len(text: Seq<char>, role: Role)
    ensures
        painted(text, role, true).len() >= painted(text, role, false).len(),
        role == Role::Location || role == Role::Label ==> painted(text, role, true).len() > painted(text, role, false).len(),
{
    reveal_strlit("\u{1b}[1m");
    reveal_strlit("\u{1b}[2m");
    reveal_strlit("\u{1b}[3");
    reveal_strlit("m");
    reveal_strlit("\u{1b}[0m");
    let l = role_look(role);
    assert(painted(text, role, true) == sgr_open(l) + text + sgr_close(l));
    if role == Role::Location {
        assert(sgr_open(l).len() > 0);
    }
    if role == Role::Label {
        assert(sgr_open(l).len() > 0);
    }
}

proof fn lemma_line_longer(d: DirectiveView)
    ensures
        human_line_spec(d, true).len() > human_line_spec(d, false).len(),
{
    let location = d.path + ":"@ + decimal(d.line as nat) + ":"@ + decimal(d.column as nat);
    lemma_painted_len(location, Role::Location);
    lemma_painted_len(tool_name(d.tool), Role::Tool);
    lemma_painted_len("*"@, Role::Blanket);
    lemma_painted_len(join_with(d.rules, ","@), Role::Rules);
    lemma_painted_len("("@ + scope_name(d.scope) + ")"@, Role::Scope);
    lemma_painted_len("(justification edited)"@, Role::Edited);
    match d.reason {
        Some(r) => lemma_painted_len("-- "@ + r, Role::Reason),
        None => {},
    }
}

/// Coloring is visible: the colored summary never reads byte for byte as the
/// plain one, and neither do the colored lines of a report with any
/// suppression in it.
pub proof fn law_color_changes_the_bytes(ds: Seq<DirectiveView>)
    ensures
        ds.len() > 0 ==> lines_spec(ds, true) != lines_spec(ds, false),
        summary_spec(ds, true) != summary_spec(ds, false),
{
    lemma_lines_longer(ds);
    let found = if ds.len() == 0 { Role::Clean } else { Role::Found };
    lemma_painted_len("notignored:"@, Role::Label);
    lemma_painted_len("in"@, Role::Label);
    lemma_painted_len(plural(distinct_files(ds), "file"@, "files"@), found);
    match counts_spec(ds) {
        Some((a, e)) => {
            lemma_painted_len(decimal(a) + " added"@, count_role(a));
            lemma_painted_len(plural(e, "justification"@, "justifications"@) + " edited"@, count_role(e));
        },
        None => {
            lemma_painted_len(plural(ds.len(), "ignore"@, "ignores"@), found);
        },
    }
    assert(summary_spec(ds, true).len() > summary_spec(ds, false).len());
}

proof fn lemma_lines_longer(ds: Seq<DirectiveView>)
    ensures
        lines_spec(ds, true).len() >= lines_spec(ds, false).len(),
        ds.len() > 0 ==> lines_spec(ds, true).len() > lines_spec(ds, false).len(),
    decreases ds.len(),
{
    if ds.len() > 0 {
        lemma_lines_longer(ds.drop_last());
        lemma_line_longer(ds.last());
    }
}

} // verus!
