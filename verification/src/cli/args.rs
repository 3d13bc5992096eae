//! The invocation: every flag's value, and what the run derives from them.
//!
//! Parsing the command line is the binary's job; this is the value it parses
//! into, and the decisions that only need that value.

use vstd::prelude::*;

use crate::cli::{ColorChoice, Format};
use crate::cli::markdown::MarkdownOptions;
use crate::diff::{ChangedFile, ChangedFileView, selects_spec, path_selects, relative_selector, selector_spec};
use crate::model::{Tool, seq_lt, lt_from, lemma_lt_from_trans, lemma_lt_from_irrefl, opt_string_view, clone_opt_string};
use crate::scan::{ScanError, ScanOptions};
use crate::source::{display_path, display_path_spec};

verus! {

/// Every flag of one invocation.
#[derive(Debug)]
pub struct Cli {
    /// Files and/or directories to scan.
    pub paths: Vec<String>,
    /// Output format.
    pub format: Format,
    /// When to colorize the `human` report.
    pub color: ColorChoice,
    /// Only report these tools; empty for all of them.
    pub tools: Vec<Tool>,
    /// Exit 1 when any suppression is reported.
    pub fail_if_found: bool,
    /// The `owner/repo` the `markdown` format links suppressions to.
    pub github_repo: Option<String>,
    /// The commit the `markdown` format pins its permalinks to.
    pub github_sha: Option<String>,
    /// Most suppressions the `markdown` format lists.
    pub max_entries: u32,
    /// Report only the suppressions this change added.
    pub diff: bool,
    /// Base the `--diff` comparison is taken from.
    pub diff_base: Option<String>,
}

fn copy_tools(v: &Vec<Tool>) -> (r: Vec<Tool>)
    ensures
        r@ == v@,
{
    let mut r: Vec<Tool> = Vec::new();
    let mut i: usize = 0;
    while i < v.len()
        invariant
            i <= v@.len(),
            r@ == v@.take(i as int),
        decreases v@.len() - i,
    {
        r.push(v[i]);
        i = i + 1;
        proof { assert(r@ =~= v@.take(i as int)); }
    }
    proof { assert(v@.take(v@.len() as int) =~= v@); }
    r
}

/// Whether `f` is one of the changed files a `PATHS` selector picks.
pub open spec fn picked(paths: Seq<Seq<char>>, f: ChangedFileView) -> bool {
    exists|i: int| 0 <= i < paths.len() && selects_spec(#[trigger] paths[i], f.path)
}

/// Whether selector `p` names no changed file.
pub open spec fn selects_none(p: Seq<char>, changed: Seq<ChangedFileView>) -> bool {
    forall|k: int| 0 <= k < changed.len() ==> !selects_spec(p, #[trigger] changed[k].path)
}

/// Whether selector `i` is a typo: it names no changed file and no existing
/// path.
pub open spec fn stray(paths: Seq<Seq<char>>, exists: Seq<bool>, changed: Seq<ChangedFileView>, i: int) -> bool {
    !exists[i] && selects_none(paths[i], changed)
}

pub open spec fn changed_view(v: Seq<ChangedFile>) -> Seq<ChangedFileView> {
    v.map_values(|f: ChangedFile| f@)
}

/// Whether some file in `v` has path `p`.
pub open spec fn has_path(v: Seq<ChangedFileView>, p: Seq<char>) -> bool {
    exists|m: int| 0 <= m < v.len() && (#[trigger] v[m]).path == p
}

/// Selection order: selector by selector, and for each selector the changed
/// files in git's order.
pub open spec fn picked_earlier(i2: int, k2: int, i: int, k: int) -> bool {
    i2 < i || (i2 == i && k2 < k)
}

/// `f` is the first file with its path, in selection order, that a selector
/// picks.
pub open spec fn first_pick(paths: Seq<Seq<char>>, changed: Seq<ChangedFileView>, f: ChangedFileView) -> bool {
    exists|i: int, k: int|
        #![trigger paths[i], changed[k]]
        0 <= i < paths.len() && 0 <= k < changed.len() && selects_spec(paths[i], changed[k].path) && changed[k] == f
            && forall|i2: int, k2: int|
            #![trigger paths[i2], changed[k2]]
            0 <= i2 < paths.len() && 0 <= k2 < changed.len() && picked_earlier(i2, k2, i, k) && selects_spec(
                paths[i2],
                changed[k2].path,
            ) ==> changed[k2].path != f.path
}

/// Paths in strictly increasing order, so none occurs twice.
pub open spec fn strictly_sorted(v: Seq<ChangedFileView>) -> bool {
    forall|a: int, b: int| 0 <= a < b < v.len() ==> seq_lt(#[trigger] v[a].path, #[trigger] v[b].path)
}

pub proof fn lemma_lt_from_total(a: Seq<char>, b: Seq<char>, i: int)
    requires
        0 <= i <= a.len(),
        i <= b.len(),
        a.subrange(0, i) == b.subrange(0, i),
        a != b,
    ensures
        lt_from(a, b, i) || lt_from(b, a, i),
    decreases a.len() - i,
{
    if i < a.len() && i < b.len() && a[i] == b[i] {
        assert(a.subrange(0, i + 1) =~= a.subrange(0, i).push(a[i]));
        assert(b.subrange(0, i + 1) =~= b.subrange(0, i).push(b[i]));
        lemma_lt_from_total(a, b, i + 1);
    } else if i == a.len() && i == b.len() {
        assert(a =~= a.subrange(0, i));
        assert(b =~= b.subrange(0, i));
    } else if i < a.len() && i < b.len() {
        assert(a[i] != b[i]);
    }
}

impl Cli {
    /// The scan configuration this invocation implies.
    pub fn scan_options(&self) -> (o: ScanOptions)
        ensures
            o.tools@ == self.tools@,
    {
        ScanOptions { tools: copy_tools(&self.tools) }
    }

    /// Where this invocation says the scanned source lives.
    pub fn markdown_options(&self) -> (o: MarkdownOptions)
        ensures
            opt_string_view(o.repo) == opt_string_view(self.github_repo),
            opt_string_view(o.sha) == opt_string_view(self.github_sha),
            o.max_entries == self.max_entries,
    {
        MarkdownOptions {
            repo: clone_opt_string(&self.github_repo),
            sha: clone_opt_string(&self.github_sha),
            max_entries: self.max_entries,
        }
    }

    /// Whether this invocation's human report is colorized, given whether
    /// stdout is a terminal and whether the environment asks for plain output.
    pub fn color_enabled(&self, is_tty: bool, no_color: bool) -> (b: bool)
        ensures
            b == match self.color {
                ColorChoice::Always => true,
                ColorChoice::Never => false,
                ColorChoice::Auto => is_tty && !no_color,
            },
    {
        self.color.resolve(is_tty, no_color)
    }
}

fn insert_sorted(out: &mut Vec<ChangedFile>, f: &ChangedFile)
    requires
        strictly_sorted(changed_view(old(out)@)),
    ensures
        strictly_sorted(changed_view(final(out)@)),
        forall|m: int| 0 <= m < old(out)@.len() ==> changed_view(final(out)@).contains(#[trigger] old(out)@[m]@),
        forall|m: int|
            0 <= m < final(out)@.len() ==> #[trigger] final(out)@[m]@ == f@ || changed_view(old(out)@).contains(
                final(out)@[m]@,
            ),
        exists|m: int| 0 <= m < final(out)@.len() && #[trigger] final(out)@[m]@.path == f@.path,
        has_path(changed_view(old(out)@), f@.path) ==> final(out)@ == old(out)@,
        !has_path(changed_view(old(out)@), f@.path) ==> changed_view(final(out)@).contains(f@),
{
    let ghost ov = changed_view(out@);
    let mut pos: usize = 0;
    while pos < out.len() && crate::model::str_lt(out[pos].path.as_str(), f.path.as_str())
        invariant
            ov == changed_view(out@),
            pos <= out@.len(),
            forall|j: int| 0 <= j < pos ==> seq_lt(#[trigger] ov[j].path, f@.path),
        decreases out@.len() - pos,
    {
        pos = pos + 1;
    }
    if pos < out.len() && out[pos].path == f.path {
        proof {
            assert(ov[pos as int].path == f@.path);
            assert forall|m: int| 0 <= m < out@.len() implies changed_view(out@).contains(#[trigger] out@[m]@) by {
                assert(changed_view(out@)[m] == out@[m]@);
            }
        }
        return;
    }
    proof {
        assert forall|j: int| 0 <= j < ov.len() implies (#[trigger] ov[j]).path != f@.path by {
            if j < pos {
                lemma_lt_from_irrefl(f@.path, 0);
            } else {
                assert(!seq_lt(ov[pos as int].path, f@.path));
                assert(ov[pos as int].path != f@.path);
                assert(f@.path.subrange(0, 0) =~= ov[pos as int].path.subrange(0, 0));
                lemma_lt_from_total(f@.path, ov[pos as int].path, 0);
                lemma_lt_from_irrefl(f@.path, 0);
                if j > pos && ov[j].path == f@.path {
                    lemma_lt_from_trans(f@.path, ov[pos as int].path, ov[j].path, 0);
                }
            }
        }
        if pos < ov.len() {
            assert(!seq_lt(ov[pos as int].path, f@.path));
            assert(ov[pos as int].path != f@.path);
            assert(f@.path.subrange(0, 0) =~= ov[pos as int].path.subrange(0, 0));
            lemma_lt_from_total(f@.path, ov[pos as int].path, 0);
            assert forall|j: int| pos <= j < ov.len() implies seq_lt(f@.path, #[trigger] ov[j].path) by {
                if j > pos {
                    lemma_lt_from_trans(f@.path, ov[pos as int].path, ov[j].path, 0);
                }
            }
        }
    }
    out.insert(pos, f.copy());
    proof {
        let nv = changed_view(out@);
        assert(nv =~= ov.insert(pos as int, f@));
        assert forall|a: int, b: int| 0 <= a < b < nv.len() implies seq_lt(#[trigger] nv[a].path, #[trigger] nv[b].path) by {
            if a < pos && b == pos {
            } else if a < pos && b > pos {
                assert(nv[b] == ov[b - 1]);
            } else if a == pos {
                assert(nv[b] == ov[b - 1]);
            } else if a > pos {
                assert(nv[a] == ov[a - 1]);
                assert(nv[b] == ov[b - 1]);
            }
        }
        assert forall|m: int| 0 <= m < old(out)@.len() implies nv.contains(#[trigger] old(out)@[m]@) by {
            if m < pos {
                assert(nv[m] == old(out)@[m]@);
            } else {
                assert(nv[m + 1] == old(out)@[m]@);
            }
        }
        assert forall|m: int| 0 <= m < out@.len() implies #[trigger] out@[m]@ == f@ || ov.contains(out@[m]@) by {
            assert(nv[m] == out@[m]@);
            if m < pos {
                assert(ov[m] == out@[m]@);
            } else if m > pos {
                assert(ov[m - 1] == out@[m]@);
            }
        }
        assert(out@[pos as int]@.path == f@.path);
        assert(nv[pos as int] == f@);
    }
}

/// Every pick up to selector `i`, file `k` (exclusive), in selection order,
/// has its path in `ov`.
pub open spec fn covered(paths: Seq<Seq<char>>, changed: Seq<ChangedFileView>, ov: Seq<ChangedFileView>, i: int, k: int) -> bool {
    forall|j: int, k2: int|
        #![trigger paths[j], changed[k2]]
        0 <= j < paths.len() && 0 <= k2 < changed.len() && picked_earlier(j, k2, i, k) && selects_spec(
            paths[j],
            changed[k2].path,
        ) ==> has_path(ov, changed[k2].path)
}

/// `ov` holds only picked files, each the first with its path, in path order.
pub open spec fn sound(paths: Seq<Seq<char>>, changed: Seq<ChangedFileView>, ov: Seq<ChangedFileView>) -> bool {
    &&& strictly_sorted(ov)
    &&& forall|m: int| 0 <= m < ov.len() ==> changed.contains(#[trigger] ov[m]) && picked(paths, ov[m])
    &&& forall|m: int| 0 <= m < ov.len() ==> first_pick(paths, changed, #[trigger] ov[m])
}

proof fn lemma_pick(
    paths: Seq<Seq<char>>,
    changed: Seq<ChangedFileView>,
    before: Seq<ChangedFileView>,
    now: Seq<ChangedFileView>,
    i: int,
    k: int,
)
    requires
        0 <= i < paths.len(),
        0 <= k < changed.len(),
        selects_spec(paths[i], changed[k].path),
        sound(paths, changed, before),
        covered(paths, changed, before, i, k),
        strictly_sorted(now),
        forall|m: int| 0 <= m < before.len() ==> now.contains(#[trigger] before[m]),
        forall|m: int| 0 <= m < now.len() ==> #[trigger] now[m] == changed[k] || before.contains(now[m]),
        has_path(now, changed[k].path),
        has_path(before, changed[k].path) ==> now == before,
    ensures
        sound(paths, changed, now),
        covered(paths, changed, now, i, k + 1),
{
    let f = changed[k];
    assert(picked(paths, f)) by {
        assert(selects_spec(paths[i], f.path));
    }
    if !has_path(before, f.path) {
        assert forall|i2: int, k2: int|
            #![trigger paths[i2], changed[k2]]
            0 <= i2 < paths.len() && 0 <= k2 < changed.len() && picked_earlier(i2, k2, i, k) && selects_spec(
                paths[i2],
                changed[k2].path,
            ) implies changed[k2].path != f.path by {
            if changed[k2].path == f.path {
                assert(has_path(before, changed[k2].path));
            }
        }
        assert(first_pick(paths, changed, f)) by {
            assert(paths[i] == paths[i] && changed[k] == f);
        }
    }
    assert forall|m: int| 0 <= m < now.len() implies changed.contains(#[trigger] now[m]) && picked(paths, now[m])
        && first_pick(paths, changed, now[m]) by {
        if now[m] != f {
            let w = choose|w: int| 0 <= w < before.len() && before[w] == now[m];
        } else {
            assert(changed[k] == now[m]);
            if has_path(before, f.path) {
                assert(now == before);
            }
        }
    }
    assert forall|j: int, k2: int|
        #![trigger paths[j], changed[k2]]
        0 <= j < paths.len() && 0 <= k2 < changed.len() && picked_earlier(j, k2, i, k + 1) && selects_spec(
            paths[j],
            changed[k2].path,
        ) implies has_path(now, changed[k2].path) by {
        if picked_earlier(j, k2, i, k) {
            assert(has_path(before, changed[k2].path));
            let m0 = choose|m0: int| 0 <= m0 < before.len() && (#[trigger] before[m0]).path == changed[k2].path;
            assert(now.contains(before[m0]));
            let w = choose|w: int| 0 <= w < now.len() && now[w] == before[m0];
            assert(now[w].path == changed[k2].path);
        } else {
            assert(k2 == k);
        }
    }
}

/// Add to `out` the changed files selector `p` (the `i`th) picks.
fn pick_into(
    out: &mut Vec<ChangedFile>,
    Ghost(paths): Ghost<Seq<Seq<char>>>,
    i: usize,
    p: &str,
    changed: &Vec<ChangedFile>,
) -> (any: bool)
    requires
        i < paths.len(),
        p@ == paths[i as int],
        sound(paths, changed_view(changed@), changed_view(old(out)@)),
        covered(paths, changed_view(changed@), changed_view(old(out)@), i as int, 0),
    ensures
        sound(paths, changed_view(changed@), changed_view(final(out)@)),
        covered(paths, changed_view(changed@), changed_view(final(out)@), i + 1, 0),
        any == !selects_none(p@, changed_view(changed@)),
{
    let ghost cv = changed_view(changed@);
    let mut any = false;
    let mut k: usize = 0;
    while k < changed.len()
        invariant
            cv == changed_view(changed@),
            i < paths.len(),
            p@ == paths[i as int],
            k <= cv.len(),
            any == exists|k2: int| 0 <= k2 < k && selects_spec(p@, #[trigger] cv[k2].path),
            sound(paths, cv, changed_view(out@)),
            covered(paths, cv, changed_view(out@), i as int, k as int),
        decreases cv.len() - k,
    {
        let f = &changed[k];
        proof { assert(cv[k as int] == f@); }
        if path_selects(p, f.path.as_str()) {
            any = true;
            let ghost before = changed_view(out@);
            insert_sorted(out, f);
            proof {
                let now = changed_view(out@);
                assert forall|m: int| 0 <= m < now.len() implies #[trigger] now[m] == cv[k as int] || before.contains(now[m]) by {
                    assert(now[m] == out@[m]@);
                }
                assert(has_path(now, cv[k as int].path)) by {
                    let w = choose|w: int| 0 <= w < out@.len() && #[trigger] out@[w]@.path == f@.path;
                    assert(now[w] == out@[w]@);
                }
                lemma_pick(paths, cv, before, now, i as int, k as int);
            }
        } else {
            proof {
                let ov = changed_view(out@);
                assert forall|j: int, k2: int|
                    #![trigger paths[j], cv[k2]]
                    0 <= j < paths.len() && 0 <= k2 < cv.len() && picked_earlier(j, k2, i as int, k + 1) && selects_spec(
                        paths[j],
                        cv[k2].path,
                    ) implies has_path(ov, cv[k2].path) by {
                    if !picked_earlier(j, k2, i as int, k as int) {
                        assert(k2 == k);
                    }
                }
            }
        }
        k = k + 1;
    }
    proof {
        let ov = changed_view(out@);
        assert forall|j: int, k2: int|
            #![trigger paths[j], cv[k2]]
            0 <= j < paths.len() && 0 <= k2 < cv.len() && picked_earlier(j, k2, i + 1, 0) && selects_spec(
                paths[j],
                cv[k2].path,
            ) implies has_path(ov, cv[k2].path) by {
            assert(picked_earlier(j, k2, i as int, cv.len() as int));
        }
        if any {
            let k2 = choose|k2: int| 0 <= k2 < k && selects_spec(p@, #[trigger] cv[k2].path);
        }
    }
    any
}

/// The selectors `paths` become for a run started in the absolute directory
/// `cwd`.
pub open spec fn selectors(paths: Seq<Seq<char>>, cwd: Seq<char>) -> Seq<Seq<char>> {
    Seq::new(paths.len(), |i: int| selector_spec(paths[i], cwd))
}

impl Cli {
    /// The changed files this run's `PATHS` select, each once and in path
    /// order, the first in selection order standing for its path; `exists`
    /// says, for each path, whether it names something on disk, and `cwd` is
    /// the absolute directory the run was started in, under which an absolute
    /// path is read as its relative spelling. A path that names neither a
    /// changed file nor anything on disk is a typo, and the first one is the
    /// error a tree scan gives it.
    pub fn narrow_to_paths(&self, changed: &Vec<ChangedFile>, exists: &Vec<bool>, cwd: &str) -> (r: Result<
        Vec<ChangedFile>,
        ScanError,
    >)
        requires
            exists@.len() == self.paths@.len(),
        ensures
            ({
                let pv = selectors(crate::model::strings_view(self.paths@), cwd@);
                let cv = changed_view(changed@);
                match r {
                    Err(ScanError::Path { path, message }) => exists|i: int|
                        0 <= i < pv.len() && #[trigger] stray(pv, exists@, cv, i) && (forall|j: int|
                            0 <= j < i ==> !stray(pv, exists@, cv, j)) && path@ == display_path_spec(
                            crate::model::strings_view(self.paths@)[i],
                        )
                            && message@ == "no such file or directory"@,
                    Ok(out) => {
                        let ov = changed_view(out@);
                        &&& forall|i: int| 0 <= i < pv.len() ==> !stray(pv, exists@, cv, i)
                        &&& sound(pv, cv, ov)
                        &&& forall|k: int|
                            0 <= k < cv.len() && picked(pv, #[trigger] cv[k]) ==> has_path(ov, cv[k].path)
                    },
                }
            }),
    {
        let ghost pv = selectors(crate::model::strings_view(self.paths@), cwd@);
        let ghost cv = changed_view(changed@);
        let mut out: Vec<ChangedFile> = Vec::new();
        let mut i: usize = 0;
        proof {
            assert(changed_view(out@) =~= Seq::<ChangedFileView>::empty());
        }
        while i < self.paths.len()
            invariant
                pv == selectors(crate::model::strings_view(self.paths@), cwd@),
                cv == changed_view(changed@),
                exists@.len() == pv.len(),
                i <= pv.len(),
                forall|j: int| 0 <= j < i ==> !stray(pv, exists@, cv, j),
                sound(pv, cv, changed_view(out@)),
                covered(pv, cv, changed_view(out@), i as int, 0),
            decreases pv.len() - i,
        {
            let given = self.paths[i].as_str();
            let sel = relative_selector(given, cwd);
            proof {
                assert(given@ == crate::model::strings_view(self.paths@)[i as int]);
                assert(sel@ == pv[i as int]);
            }
            let any = pick_into(&mut out, Ghost(pv), i, sel.as_str(), changed);
            if !any && !exists[i] {
                proof { assert(stray(pv, exists@, cv, i as int)); }
                return Err(ScanError::Path { path: display_path(given), message: "no such file or directory".to_owned() });
            }
            i = i + 1;
        }
        proof {
            let ov = changed_view(out@);
            assert forall|k: int| 0 <= k < cv.len() && picked(pv, #[trigger] cv[k]) implies has_path(ov, cv[k].path) by {
                let j = choose|j: int| 0 <= j < pv.len() && selects_spec(#[trigger] pv[j], cv[k].path);
                assert(picked_earlier(j, k, pv.len() as int, 0));
                assert(pv[j] == pv[j] && cv[k] == cv[k]);
            }
        }
        Ok(out)
    }
}

} // verus!
