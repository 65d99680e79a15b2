use vstd::prelude::*;

use vstd::hash_map::StringHashMap;

use crate::summary::Summary;
use crate::load::{
    find_group, find_pass, patches_well_formed, Commit, CommitData, Pass, Patch, Run,
};

verus! {

/// One recorded delta: run name, pass name, and the delta.
pub type Write = (Seq<char>, Seq<char>, i128);

/// Why two commits' benchmark sets cannot be compared.
#[derive(Clone, Copy, Debug, PartialEq, Eq, Structural)]
pub enum CompareError {
    /// A group present in both commits holds a different number of patches.
    PatchCountMismatch,
    /// Two patches paired by position run benchmarks of different names.
    RunNameMismatch,
}

/// The comparison of two commits: for each run name, for each pass name,
/// the time in `b` minus the time in `a`.
pub struct Comparison {
    pub a: Commit,
    pub b: Commit,
    pub by_crate: StringHashMap<StringHashMap<i128>>,
}

/// The delta of one pass of `a`: the time of the first pass of the same name
/// in `b_run`, or zero where there is none, minus the pass's own time.
pub open spec fn pass_delta(a_pass: Pass, b_run: Run) -> i128 {
    let b_time: int = match find_pass(b_run.passes@, a_pass.name@) {
        Some(p) => p.time as int,
        None => 0,
    };
    (b_time - a_pass.time as int) as i128
}

/// The deltas that a pair of runs records, one per pass of `a_run`, in order.
pub open spec fn run_writes(a_run: Run, b_run: Run) -> Seq<Write> {
    Seq::new(
        a_run.passes@.len(),
        |j: int| (a_run.name@, a_run.passes@[j].name@, pass_delta(a_run.passes@[j], b_run)),
    )
}

/// The deltas that the first `k` pairs of patches record, in order.
pub open spec fn patch_writes(ap: Seq<Patch>, bp: Seq<Patch>, k: int) -> Seq<Write>
    decreases k,
{
    if k <= 0 {
        Seq::empty()
    } else {
        patch_writes(ap, bp, k - 1) + run_writes(ap[k - 1].spec_run(), bp[k - 1].spec_run())
    }
}

/// The deltas that the first `n` groups of `a` record against `b`, in order.
/// A group that `b` lacks records nothing.
pub open spec fn group_writes(
    a: Seq<(String, Vec<Patch>)>,
    b: Seq<(String, Vec<Patch>)>,
    n: int,
) -> Seq<Write>
    decreases n,
{
    if n <= 0 {
        Seq::empty()
    } else {
        group_writes(a, b, n - 1) + match find_group(b, a[n - 1].0@) {
            Some(bp) => patch_writes(a[n - 1].1@, bp, a[n - 1].1@.len() as int),
            None => Seq::empty(),
        }
    }
}

/// Every delta that comparing `a` with `b` records, in order.
pub open spec fn writes(a: CommitData, b: CommitData) -> Seq<Write> {
    group_writes(a.benchmarks@, b.benchmarks@, a.benchmarks@.len() as int)
}

/// What is wrong with pairing two groups' patches, if anything.
pub open spec fn group_mismatch(ap: Seq<Patch>, bp: Seq<Patch>) -> Option<CompareError> {
    if ap.len() != bp.len() {
        Some(CompareError::PatchCountMismatch)
    } else if exists|k: int|
        0 <= k < ap.len() && (#[trigger] ap[k]).spec_run().name@ != bp[k].spec_run().name@ {
        Some(CompareError::RunNameMismatch)
    } else {
        None
    }
}

/// The first mismatch among the first `n` groups of `a` that `b` also holds.
pub open spec fn first_mismatch(
    a: Seq<(String, Vec<Patch>)>,
    b: Seq<(String, Vec<Patch>)>,
    n: int,
) -> Option<CompareError>
    decreases n,
{
    if n <= 0 {
        None
    } else {
        match first_mismatch(a, b, n - 1) {
            Some(e) => Some(e),
            None => match find_group(b, a[n - 1].0@) {
                Some(bp) => group_mismatch(a[n - 1].1@, bp),
                None => None,
            },
        }
    }
}

/// The first mismatch, in `a`'s group order, that stops a comparison.
pub open spec fn mismatch(a: CommitData, b: CommitData) -> Option<CompareError> {
    first_mismatch(a.benchmarks@, b.benchmarks@, a.benchmarks@.len() as int)
}

/// The deltas recorded for pass names of run `run`: a later delta of the same
/// pass name replaces an earlier one.
pub open spec fn phase_deltas(ws: Seq<Write>, run: Seq<char>) -> Map<Seq<char>, i128>
    decreases ws.len(),
{
    if ws.len() == 0 {
        Map::empty()
    } else {
        let m = phase_deltas(ws.drop_last(), run);
        if ws.last().0 == run {
            m.insert(ws.last().1, ws.last().2)
        } else {
            m
        }
    }
}

/// Whether some delta is recorded for run `run`.
pub open spec fn has_run(ws: Seq<Write>, run: Seq<char>) -> bool {
    exists|i: int| 0 <= i < ws.len() && (#[trigger] ws[i]).0 == run
}

/// Whether a run-by-run map of deltas holds exactly what `ws` records.
pub open spec fn deltas_match(by_crate: Map<Seq<char>, StringHashMap<i128>>, ws: Seq<Write>) -> bool {
    &&& forall|r: Seq<char>| #[trigger] by_crate.contains_key(r) <==> has_run(ws, r)
    &&& forall|r: Seq<char>| #[trigger] by_crate.contains_key(r) ==> by_crate[r]@ == phase_deltas(ws, r)
}

/// The deltas as values rather than strings.
pub open spec fn view_writes(v: Seq<(String, String, i128)>) -> Seq<Write> {
    v.map_values(|w: (String, String, i128)| (w.0@, w.1@, w.2))
}

/// Once a mismatch is found among the first `k` groups, it stays the first.
proof fn lemma_first_mismatch_stable(
    a: Seq<(String, Vec<Patch>)>,
    b: Seq<(String, Vec<Patch>)>,
    k: int,
    n: int,
)
    requires
        0 <= k <= n,
        first_mismatch(a, b, k) is Some,
    ensures
        first_mismatch(a, b, n) == first_mismatch(a, b, k),
    decreases n - k,
{
    if k < n {
        lemma_first_mismatch_stable(a, b, k, n - 1);
    }
}

/// Whether no two groups share a name.
pub open spec fn group_names_distinct(groups: Seq<(String, Vec<Patch>)>) -> bool {
    forall|i: int, j: int|
        0 <= i < j < groups.len() ==> (#[trigger] groups[i]).0@ != (#[trigger] groups[j]).0@
}

/// Whether no two passes of a run share a name.
pub open spec fn pass_names_distinct(run: Run) -> bool {
    forall|i: int, j: int|
        0 <= i < j < run.passes@.len() ==> (#[trigger] run.passes@[i]).name@ != (
        #[trigger] run.passes@[j]).name@
}

/// Whether, in every patch of every group, no two passes share a name.
pub open spec fn all_pass_names_distinct(a: CommitData) -> bool {
    forall|g: int, k: int|
        0 <= g < a.benchmarks@.len() && 0 <= k < a.benchmarks@[g].1@.len()
            ==> pass_names_distinct(#[trigger] a.benchmarks@[g].1@[k].spec_run())
}

proof fn lemma_find_group_distinct(groups: Seq<(String, Vec<Patch>)>, i: int)
    requires
        0 <= i < groups.len(),
        group_names_distinct(groups),
    ensures
        find_group(groups, groups[i].0@) == Some(groups[i].1@),
    decreases groups.len(),
{
    if i > 0 {
        assert(groups[0].0@ != groups[i].0@);
        let rest = groups.drop_first();
        assert(rest[i - 1] == groups[i]);
        assert forall|x: int, y: int| 0 <= x < y < rest.len() implies (#[trigger] rest[x]).0@ != (
        #[trigger] rest[y]).0@ by {
            assert(rest[x] == groups[x + 1] && rest[y] == groups[y + 1]);
        }
        lemma_find_group_distinct(rest, i - 1);
    }
}

proof fn lemma_find_pass_distinct(passes: Seq<Pass>, j: int)
    requires
        0 <= j < passes.len(),
        forall|x: int, y: int|
            0 <= x < y < passes.len() ==> (#[trigger] passes[x]).name@ != (
            #[trigger] passes[y]).name@,
    ensures
        find_pass(passes, passes[j].name@) == Some(passes[j]),
    decreases passes.len(),
{
    if j > 0 {
        assert(passes[0].name@ != passes[j].name@);
        let rest = passes.drop_first();
        assert(rest[j - 1] == passes[j]);
        assert forall|x: int, y: int| 0 <= x < y < rest.len() implies (#[trigger] rest[x]).name@ != (
        #[trigger] rest[y]).name@ by {
            assert(rest[x] == passes[x + 1] && rest[y] == passes[y + 1]);
        }
        lemma_find_pass_distinct(rest, j - 1);
    }
}

proof fn lemma_self_patch_writes_zero(ap: Seq<Patch>, k: int)
    requires
        0 <= k <= ap.len(),
        forall|x: int| 0 <= x < ap.len() ==> pass_names_distinct(#[trigger] ap[x].spec_run()),
    ensures
        forall|w: int|
            0 <= w < patch_writes(ap, ap, k).len() ==> (#[trigger] patch_writes(ap, ap, k)[w]).2
                == 0,
    decreases k,
{
    if k > 0 {
        lemma_self_patch_writes_zero(ap, k - 1);
        let run = ap[k - 1].spec_run();
        assert(pass_names_distinct(run));
        assert forall|j: int| 0 <= j < run.passes@.len() implies (#[trigger] run_writes(
            run,
            run,
        )[j]).2 == 0 by {
            lemma_find_pass_distinct(run.passes@, j);
        }
        let prev = patch_writes(ap, ap, k - 1);
        assert forall|w: int| 0 <= w < patch_writes(ap, ap, k).len() implies (
        #[trigger] patch_writes(ap, ap, k)[w]).2 == 0 by {
            if w >= prev.len() {
                assert(patch_writes(ap, ap, k)[w] == run_writes(run, run)[w - prev.len()]);
            } else {
                assert(patch_writes(ap, ap, k)[w] == prev[w]);
            }
        }
    }
}

proof fn lemma_self_group_writes_zero(a: CommitData, n: int)
    requires
        0 <= n <= a.benchmarks@.len(),
        group_names_distinct(a.benchmarks@),
        all_pass_names_distinct(a),
    ensures
        first_mismatch(a.benchmarks@, a.benchmarks@, n) is None,
        forall|w: int|
            0 <= w < group_writes(a.benchmarks@, a.benchmarks@, n).len() ==> (
            #[trigger] group_writes(a.benchmarks@, a.benchmarks@, n)[w]).2 == 0,
    decreases n,
{
    let g = a.benchmarks@;
    if n > 0 {
        lemma_self_group_writes_zero(a, n - 1);
        lemma_find_group_distinct(g, n - 1);
        let ap = g[n - 1].1@;
        assert forall|x: int| 0 <= x < ap.len() implies pass_names_distinct(
            #[trigger] ap[x].spec_run(),
        ) by {
            assert(pass_names_distinct(a.benchmarks@[n - 1].1@[x].spec_run()));
        }
        lemma_self_patch_writes_zero(ap, ap.len() as int);
        let prev = group_writes(g, g, n - 1);
        let cur = patch_writes(ap, ap, ap.len() as int);
        assert forall|w: int| 0 <= w < group_writes(g, g, n).len() implies (
        #[trigger] group_writes(g, g, n)[w]).2 == 0 by {
            if w >= prev.len() {
                assert(group_writes(g, g, n)[w] == cur[w - prev.len()]);
            } else {
                assert(group_writes(g, g, n)[w] == prev[w]);
            }
        }
    }
}

proof fn lemma_phase_deltas_zero(ws: Seq<Write>, run: Seq<char>)
    requires
        forall|w: int| 0 <= w < ws.len() ==> (#[trigger] ws[w]).2 == 0,
    ensures
        forall|p: Seq<char>| #[trigger] phase_deltas(ws, run).contains_key(p) ==> phase_deltas(
            ws,
            run,
        )[p] == 0,
    decreases ws.len(),
{
    if ws.len() > 0 {
        let rest = ws.drop_last();
        assert forall|w: int| 0 <= w < rest.len() implies (#[trigger] rest[w]).2 == 0 by {
            assert(rest[w] == ws[w]);
        }
        lemma_phase_deltas_zero(rest, run);
        assert(ws.last() == ws[ws.len() - 1]);
        assert(ws[ws.len() - 1].2 == 0);
        let m = phase_deltas(rest, run);
        assert forall|p: Seq<char>| #[trigger] phase_deltas(ws, run).contains_key(p) implies phase_deltas(
            ws,
            run,
        )[p] == 0 by {
            if ws.last().0 == run && ws.last().1 == p {
            } else {
                assert(m.contains_key(p));
            }
        }
    }
}

/// A commit compared with itself can always be compared, and every delta is
/// zero, provided that its group names are distinct and no run holds two
/// passes of one name (else a pass may be paired with an earlier namesake).
pub proof fn lemma_self_comparison_zero(a: CommitData)
    requires
        a.well_formed(),
        group_names_distinct(a.benchmarks@),
        all_pass_names_distinct(a),
    ensures
        mismatch(a, a) is None,
        forall|r: Seq<char>, p: Seq<char>|
            #[trigger] phase_deltas(writes(a, a), r).contains_key(p) ==> phase_deltas(
                writes(a, a),
                r,
            )[p] == 0,
{
    lemma_self_group_writes_zero(a, a.benchmarks@.len() as int);
    assert forall|r: Seq<char>, p: Seq<char>|
        #[trigger] phase_deltas(writes(a, a), r).contains_key(p) implies phase_deltas(
        writes(a, a),
        r,
    )[p] == 0 by {
        lemma_phase_deltas_zero(writes(a, a), r);
    }
}

/// The delta that pass `j` of the run of patch `x` records against the
/// paired patch of `bp`.
pub open spec fn write_at(ap: Seq<Patch>, bp: Seq<Patch>, x: int, j: int) -> Write {
    run_writes(ap[x].spec_run(), bp[x].spec_run())[j]
}

proof fn lemma_patch_writes_source(ap: Seq<Patch>, bp: Seq<Patch>, k: int, w: int)
    requires
        0 <= k <= ap.len(),
        0 <= w < patch_writes(ap, bp, k).len(),
    ensures
        exists|x: int, j: int|
            0 <= x < k && 0 <= j < ap[x].spec_run().passes@.len() && #[trigger] write_at(
                ap,
                bp,
                x,
                j,
            ) == patch_writes(ap, bp, k)[w],
    decreases k,
{
    let prev = patch_writes(ap, bp, k - 1);
    if w < prev.len() {
        lemma_patch_writes_source(ap, bp, k - 1, w);
        let (x, j) = choose|x: int, j: int|
            0 <= x < k - 1 && 0 <= j < ap[x].spec_run().passes@.len() && #[trigger] write_at(
                ap,
                bp,
                x,
                j,
            ) == prev[w];
        assert(write_at(ap, bp, x, j) == patch_writes(ap, bp, k)[w]);
    } else {
        let j = w - prev.len();
        assert(write_at(ap, bp, k - 1, j) == patch_writes(ap, bp, k)[w]);
    }
}

proof fn lemma_group_writes_source(
    a: Seq<(String, Vec<Patch>)>,
    b: Seq<(String, Vec<Patch>)>,
    n: int,
    w: int,
)
    requires
        0 <= n <= a.len(),
        0 <= w < group_writes(a, b, n).len(),
    ensures
        exists|g: int, x: int, j: int|
            0 <= g < n && find_group(b, a[g].0@) is Some && 0 <= x < a[g].1@.len() && 0 <= j
                < a[g].1@[x].spec_run().passes@.len() && #[trigger] write_at(
                a[g].1@,
                find_group(b, a[g].0@).unwrap(),
                x,
                j,
            ) == group_writes(a, b, n)[w],
    decreases n,
{
    let prev = group_writes(a, b, n - 1);
    if w < prev.len() {
        lemma_group_writes_source(a, b, n - 1, w);
        let (g, x, j) = choose|g: int, x: int, j: int|
            0 <= g < n - 1 && find_group(b, a[g].0@) is Some && 0 <= x < a[g].1@.len() && 0 <= j
                < a[g].1@[x].spec_run().passes@.len() && #[trigger] write_at(
                a[g].1@,
                find_group(b, a[g].0@).unwrap(),
                x,
                j,
            ) == prev[w];
        assert(write_at(a[g].1@, find_group(b, a[g].0@).unwrap(), x, j) == group_writes(a, b, n)[w]);
    } else {
        let g = n - 1;
        let bp = find_group(b, a[g].0@).unwrap();
        let ap = a[g].1@;
        lemma_patch_writes_source(ap, bp, ap.len() as int, w - prev.len());
        let (x, j) = choose|x: int, j: int|
            0 <= x < ap.len() && 0 <= j < ap[x].spec_run().passes@.len() && #[trigger] write_at(
                ap,
                bp,
                x,
                j,
            ) == patch_writes(ap, bp, ap.len() as int)[w - prev.len()];
        assert(write_at(ap, bp, x, j) == group_writes(a, b, n)[w]);
    }
}

proof fn lemma_phase_deltas_uniform(ws: Seq<Write>, r: Seq<char>, p: Seq<char>, v: i128)
    requires
        forall|w: int| 0 <= w < ws.len() && (#[trigger] ws[w]).0 == r && ws[w].1 == p ==> ws[w].2 == v,
        phase_deltas(ws, r).contains_key(p),
    ensures
        phase_deltas(ws, r)[p] == v,
    decreases ws.len(),
{
    if ws.len() > 0 {
        let rest = ws.drop_last();
        assert(ws.last() == ws[ws.len() - 1]);
        if !(ws.last().0 == r && ws.last().1 == p) {
            assert forall|w: int| 0 <= w < rest.len() && (#[trigger] rest[w]).0 == r && rest[w].1 == p implies rest[w].2 == v by {
                assert(rest[w] == ws[w]);
            }
            lemma_phase_deltas_uniform(rest, r, p, v);
        }
    }
}

/// Whether `b` lacks phase `p` in every run paired with a run of `a` named
/// `r` that measures `p`, and each such pass of `a` took time `t`.
pub open spec fn vanished_in_all(a: CommitData, b: CommitData, r: Seq<char>, p: Seq<char>, t: u64) -> bool {
    forall|g: int, x: int, j: int|
        0 <= g < a.benchmarks@.len() && find_group(b.benchmarks@, a.benchmarks@[g].0@) is Some && 0
            <= x < a.benchmarks@[g].1@.len() && 0 <= j
            < a.benchmarks@[g].1@[x].spec_run().passes@.len() && a.benchmarks@[g].1@[x].spec_run().name@
            == r && (#[trigger] a.benchmarks@[g].1@[x].spec_run().passes@[j]).name@ == p ==> {
            &&& find_pass(
                find_group(b.benchmarks@, a.benchmarks@[g].0@).unwrap()[x].spec_run().passes@,
                p,
            ) is None
            &&& a.benchmarks@[g].1@[x].spec_run().passes@[j].time == t
        }
}

/// Where `b` lacks a phase that `a` measured, the comparison reports the
/// negated time of `a` for it, provided that every pass of `a` recording
/// under that run and phase name took that same time.
pub proof fn lemma_vanished_phase_reported(a: CommitData, b: CommitData, r: Seq<char>, p: Seq<char>, t: u64)
    requires
        phase_deltas(writes(a, b), r).contains_key(p),
        vanished_in_all(a, b, r, p, t),
    ensures
        phase_deltas(writes(a, b), r)[p] == (0 - t as int) as i128,
{
    let ws = writes(a, b);
    let ag = a.benchmarks@;
    let bg = b.benchmarks@;
    assert forall|w: int| 0 <= w < ws.len() && (#[trigger] ws[w]).0 == r && ws[w].1 == p implies ws[w].2
        == (0 - t as int) as i128 by {
        lemma_group_writes_source(ag, bg, ag.len() as int, w);
        let (g, x, j) = choose|g: int, x: int, j: int|
            0 <= g < ag.len() && find_group(bg, ag[g].0@) is Some && 0 <= x < ag[g].1@.len() && 0 <= j
                < ag[g].1@[x].spec_run().passes@.len() && #[trigger] write_at(
                ag[g].1@,
                find_group(bg, ag[g].0@).unwrap(),
                x,
                j,
            ) == ws[w];
        let pass = ag[g].1@[x].spec_run().passes@[j];
        assert(pass.name@ == p);
    }
    lemma_phase_deltas_uniform(ws, r, p, (0 - t as int) as i128);
}

/// The delta that a comparison reports for a run and pass name is the last
/// one recorded for them.
pub proof fn lemma_last_write_wins(ws: Seq<Write>, w: int)
    requires
        0 <= w < ws.len(),
        forall|v: int| w < v < ws.len() ==> !((#[trigger] ws[v]).0 == ws[w].0 && ws[v].1 == ws[w].1),
    ensures
        phase_deltas(ws, ws[w].0).contains_key(ws[w].1),
        phase_deltas(ws, ws[w].0)[ws[w].1] == ws[w].2,
    decreases ws.len(),
{
    let rest = ws.drop_last();
    if w < ws.len() - 1 {
        assert(rest[w] == ws[w]);
        assert forall|v: int| w < v < rest.len() implies !((#[trigger] rest[v]).0 == rest[w].0
            && rest[v].1 == rest[w].1) by {
            assert(rest[v] == ws[v]);
        }
        lemma_last_write_wins(rest, w);
        assert(ws.last() == ws[ws.len() - 1]);
    }
}

/// Two commits whose shared group differs in its number of patches cannot
/// be compared.
pub proof fn lemma_patch_count_mismatch_fails(a: CommitData, b: CommitData, g: int)
    requires
        0 <= g < a.benchmarks@.len(),
        find_group(b.benchmarks@, a.benchmarks@[g].0@) matches Some(bp) && bp.len()
            != a.benchmarks@[g].1@.len(),
    ensures
        mismatch(a, b) is Some,
{
    assert(first_mismatch(a.benchmarks@, b.benchmarks@, g + 1) is Some);
    lemma_first_mismatch_stable(
        a.benchmarks@,
        b.benchmarks@,
        g + 1,
        a.benchmarks@.len() as int,
    );
}

/// What is wrong with pairing two groups' patches, if anything.
fn check_group(ap: &Vec<Patch>, bp: &Vec<Patch>) -> (r: Option<CompareError>)
    requires
        patches_well_formed(ap@),
        patches_well_formed(bp@),
    ensures
        r == group_mismatch(ap@, bp@),
{
    if ap.len() != bp.len() {
        return Some(CompareError::PatchCountMismatch);
    }
    let mut k: usize = 0;
    while k < ap.len()
        invariant
            k <= ap@.len(),
            ap@.len() == bp@.len(),
            patches_well_formed(ap@),
            patches_well_formed(bp@),
            forall|j: int| 0 <= j < k ==> (#[trigger] ap@[j]).spec_run().name@ == bp@[j].spec_run().name@,
        decreases ap@.len() - k,
    {
        assert(ap@[k as int].well_formed());
        assert(bp@[k as int].well_formed());
        if !(ap[k].run().name == bp[k].run().name) {
            return Some(CompareError::RunNameMismatch);
        }
        k = k + 1;
    }
    None
}

/// Appends the deltas of one pair of runs.
fn push_run_writes(a_run: &Run, b_run: &Run, ws: &mut Vec<(String, String, i128)>)
    ensures
        view_writes(final(ws)@) == view_writes(old(ws)@) + run_writes(*a_run, *b_run),
{
    let ghost base = view_writes(ws@);
    let mut j: usize = 0;
    while j < a_run.passes.len()
        invariant
            j <= a_run.passes@.len(),
            view_writes(ws@) == base + run_writes(*a_run, *b_run).subrange(0, j as int),
        decreases a_run.passes@.len() - j,
    {
        let a_pass = &a_run.passes[j];
        let b_time: i128 = match b_run.get_pass(&a_pass.name) {
            Some(p) => p.time as i128,
            None => 0,
        };
        let delta: i128 = b_time - a_pass.time as i128;
        let ghost before = ws@;
        ws.push((a_run.name.clone(), a_pass.name.clone(), delta));
        assert(view_writes(ws@) =~= view_writes(before).push(
            run_writes(*a_run, *b_run)[j as int],
        ));
        assert(run_writes(*a_run, *b_run).subrange(0, j + 1) =~= run_writes(
            *a_run,
            *b_run,
        ).subrange(0, j as int).push(run_writes(*a_run, *b_run)[j as int]));
        j = j + 1;
    }
    assert(run_writes(*a_run, *b_run).subrange(0, j as int) =~= run_writes(*a_run, *b_run));
}

/// Appends the deltas of two groups' patches, paired by position.
fn push_patch_writes(ap: &Vec<Patch>, bp: &Vec<Patch>, ws: &mut Vec<(String, String, i128)>)
    requires
        ap@.len() == bp@.len(),
        patches_well_formed(ap@),
        patches_well_formed(bp@),
    ensures
        view_writes(final(ws)@) == view_writes(old(ws)@) + patch_writes(
            ap@,
            bp@,
            ap@.len() as int,
        ),
{
    let ghost base = view_writes(ws@);
    let mut k: usize = 0;
    while k < ap.len()
        invariant
            k <= ap@.len(),
            ap@.len() == bp@.len(),
            patches_well_formed(ap@),
            patches_well_formed(bp@),
            view_writes(ws@) == base + patch_writes(ap@, bp@, k as int),
        decreases ap@.len() - k,
    {
        assert(ap@[k as int].well_formed());
        assert(bp@[k as int].well_formed());
        push_run_writes(ap[k].run(), bp[k].run(), ws);
        assert(base + patch_writes(ap@, bp@, k + 1) =~= base + patch_writes(ap@, bp@, k as int)
            + run_writes(ap@[k as int].spec_run(), bp@[k as int].spec_run()));
        k = k + 1;
    }
}

/// The deltas recorded for one run name, as a map from pass name.
fn phase_map(ws: &Vec<(String, String, i128)>, run: &String) -> (m: StringHashMap<i128>)
    ensures
        m@ == phase_deltas(view_writes(ws@), run@),
{
    let ghost vw = view_writes(ws@);
    let mut m: StringHashMap<i128> = StringHashMap::new();
    let mut j: usize = 0;
    assert(vw.subrange(0, 0) =~= Seq::<Write>::empty());
    while j < ws.len()
        invariant
            j <= ws@.len(),
            vw == view_writes(ws@),
            m@ == phase_deltas(vw.subrange(0, j as int), run@),
        decreases ws@.len() - j,
    {
        assert(vw.subrange(0, j + 1).drop_last() =~= vw.subrange(0, j as int));
        if ws[j].0 == *run {
            m.insert(ws[j].1.clone(), ws[j].2);
        }
        j = j + 1;
    }
    assert(vw.subrange(0, j as int) =~= vw);
    m
}

/// The recorded deltas, grouped by run name and then by pass name.
fn deltas_by_run(ws: &Vec<(String, String, i128)>) -> (m: StringHashMap<StringHashMap<i128>>)
    ensures
        deltas_match(m@, view_writes(ws@)),
{
    let ghost vw = view_writes(ws@);
    let mut m: StringHashMap<StringHashMap<i128>> = StringHashMap::new();
    let mut i: usize = 0;
    while i < ws.len()
        invariant
            i <= ws@.len(),
            vw == view_writes(ws@),
            forall|r: Seq<char>|
                #[trigger] m@.contains_key(r) <==> has_run(vw.subrange(0, i as int), r),
            forall|r: Seq<char>| #[trigger] m@.contains_key(r) ==> m@[r]@ == phase_deltas(vw, r),
        decreases ws@.len() - i,
    {
        let ghost pre = vw.subrange(0, i as int);
        let ghost next = vw.subrange(0, i + 1);
        assert forall|r: Seq<char>| has_run(next, r) <==> has_run(pre, r) || vw[i as int].0 == r by {
            if has_run(next, r) {
                let t = choose|t: int| 0 <= t < next.len() && (#[trigger] next[t]).0 == r;
                if t < i {
                    assert(pre[t] == next[t]);
                }
            }
            if has_run(pre, r) {
                let t = choose|t: int| 0 <= t < pre.len() && (#[trigger] pre[t]).0 == r;
                assert(next[t] == pre[t]);
            }
            if vw[i as int].0 == r {
                assert(next[i as int] == vw[i as int]);
            }
        }
        if !m.contains_key(ws[i].0.as_str()) {
            let inner = phase_map(ws, &ws[i].0);
            m.insert(ws[i].0.clone(), inner);
        }
        i = i + 1;
    }
    assert(vw.subrange(0, i as int) =~= vw);
    m
}

/// The deltas that comparing `a` with `b` records, or the first mismatch.
fn collect_writes(a: &CommitData, b: &CommitData) -> (r: Result<
    Vec<(String, String, i128)>,
    CompareError,
>)
    requires
        a.well_formed(),
        b.well_formed(),
    ensures
        match r {
            Ok(ws) => mismatch(*a, *b) is None && view_writes(ws@) == writes(*a, *b),
            Err(e) => mismatch(*a, *b) == Some(e),
        },
{
    let ghost ag = a.benchmarks@;
    let ghost bg = b.benchmarks@;
    let mut ws: Vec<(String, String, i128)> = Vec::new();
    let mut i: usize = 0;
    assert(view_writes(ws@) =~= Seq::<Write>::empty());
    while i < a.benchmarks.len()
        invariant
            i <= ag.len(),
            ag == a.benchmarks@,
            bg == b.benchmarks@,
            a.well_formed(),
            b.well_formed(),
            first_mismatch(ag, bg, i as int) is None,
            view_writes(ws@) == group_writes(ag, bg, i as int),
        decreases ag.len() - i,
    {
        let (name, ap) = (&a.benchmarks[i].0, &a.benchmarks[i].1);
        assert(patches_well_formed(ag[i as int].1@));
        match b.group_index(name) {
            Some(g) => {
                let bp = &b.benchmarks[g].1;
                assert(patches_well_formed(bg[g as int].1@));
                let e = check_group(ap, bp);
                if e.is_some() {
                    proof {
                        lemma_first_mismatch_stable(ag, bg, i + 1, ag.len() as int);
                    }
                    return Err(e.unwrap());
                }
                push_patch_writes(ap, bp, &mut ws);
            },
            None => {
                assert(group_writes(ag, bg, i + 1) =~= group_writes(ag, bg, i as int));
            },
        }
        i = i + 1;
    }
    Ok(ws)
}

impl Summary {
    /// Compares commit `a` with the later commit `b`: for every group of `a`
    /// that `b` also holds, patches are paired by position and every pass of
    /// `a`'s run gets the delta of `pass_delta`, under its run name and pass
    /// name; a later delta for the same names replaces an earlier one. Fails
    /// with the first mismatch, in `a`'s group order, where paired groups
    /// differ in length or paired runs in name.
    pub fn compare_points(a: &CommitData, b: &CommitData) -> (r: Result<Comparison, CompareError>)
        requires
            a.well_formed(),
            b.well_formed(),
        ensures
            match r {
                Ok(c) => {
                    &&& mismatch(*a, *b) is None
                    &&& c.a == a.commit
                    &&& c.b == b.commit
                    &&& deltas_match(c.by_crate@, writes(*a, *b))
                },
                Err(e) => mismatch(*a, *b) == Some(e),
            },
    {
        match collect_writes(a, b) {
            Ok(ws) => {
                let by_crate = deltas_by_run(&ws);
                Ok(Comparison { a: a.commit.copy(), b: b.commit.copy(), by_crate })
            },
            Err(e) => Err(e),
        }
    }
}

} // verus!
