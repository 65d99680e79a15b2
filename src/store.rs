use vstd::prelude::*;

use vstd::hash_set::StringHashSet;

use crate::date::Date;
use crate::load::{all_patches, deref_patches, patches_well_formed, CommitData, Pass, Patch};
use crate::date::{lemma_week_start_floor, week_start};
use crate::summary::{
    all_well_formed, summary_error, summary_of, total_window, Summary, SummaryError,
    WEEKS_IN_SUMMARY,
};

verus! {

/// The day number of a record's commit.
pub open spec fn day_of(c: CommitData) -> int {
    c.commit.date.day as int
}

/// Whether records are in strictly ascending order of date.
pub open spec fn sorted_by_date(s: Seq<CommitData>) -> bool {
    forall|i: int, j: int| 0 <= i < j < s.len() ==> day_of(#[trigger] s[i]) < day_of(#[trigger] s[j])
}

/// The number of records dated before day `x`.
pub open spec fn count_before(s: Seq<CommitData>, x: int) -> int
    decreases s.len(),
{
    if s.len() == 0 {
        0
    } else {
        count_before(s.drop_last(), x) + if day_of(s.last()) < x {
            1int
        } else {
            0int
        }
    }
}

/// The index range `(lo, hi)` of the records dated in `[start, end)`.
pub open spec fn window(s: Seq<CommitData>, start: int, end: int) -> (int, int) {
    let lo = count_before(s, start);
    let hi = count_before(s, end);
    (lo, if hi < lo {
        lo
    } else {
        hi
    })
}

/// Whether exactly the records at indices `lo..hi` are dated in `[start, end)`.
pub open spec fn selects(s: Seq<CommitData>, lo: int, hi: int, start: int, end: int) -> bool {
    &&& 0 <= lo <= hi <= s.len()
    &&& forall|i: int|
        0 <= i < s.len() ==> ((lo <= i < hi) <==> (start <= #[trigger] day_of(s[i]) < end))
}

/// Where a partition point of the dates is known, it is the count of
/// records before it.
proof fn lemma_count_before_split(s: Seq<CommitData>, x: int, k: int)
    requires
        0 <= k <= s.len(),
        forall|i: int| 0 <= i < k ==> day_of(#[trigger] s[i]) < x,
        forall|i: int| k <= i < s.len() ==> day_of(#[trigger] s[i]) >= x,
    ensures
        count_before(s, x) == k,
    decreases s.len(),
{
    if s.len() > 0 {
        let rest = s.drop_last();
        assert(s.last() == s[s.len() - 1]);
        if k == s.len() {
            assert forall|i: int| 0 <= i < k - 1 implies day_of(#[trigger] rest[i]) < x by {
                assert(rest[i] == s[i]);
            }
            lemma_count_before_split(rest, x, k - 1);
        } else {
            assert forall|i: int| 0 <= i < k implies day_of(#[trigger] rest[i]) < x by {
                assert(rest[i] == s[i]);
            }
            assert forall|i: int| k <= i < rest.len() implies day_of(#[trigger] rest[i]) >= x by {
                assert(rest[i] == s[i]);
            }
            lemma_count_before_split(rest, x, k);
        }
    }
}

/// The selection of a sorted store is exact: the records of `window` are
/// those dated in the range.
pub proof fn lemma_window_selects(s: Seq<CommitData>, start: int, end: int)
    requires
        sorted_by_date(s),
    ensures
        selects(s, window(s, start, end).0, window(s, start, end).1, start, end),
{
    lemma_split_exists(s, start);
    lemma_split_exists(s, end);
    let lo = choose_split(s, start);
    let hi0 = choose_split(s, end);
    lemma_count_before_split(s, start, lo);
    lemma_count_before_split(s, end, hi0);
}

/// A sorted store splits at every day into records before it and the rest.
proof fn lemma_split_exists(s: Seq<CommitData>, x: int)
    requires
        sorted_by_date(s),
    ensures
        exists|k: int| #[trigger] splits_at(s, x, k),
    decreases s.len(),
{
    if s.len() == 0 {
        assert(splits_at(s, x, 0));
    } else {
        let rest = s.drop_last();
        assert forall|i: int, j: int| 0 <= i < j < rest.len() implies day_of(#[trigger] rest[i])
            < day_of(#[trigger] rest[j]) by {
            assert(rest[i] == s[i] && rest[j] == s[j]);
        }
        lemma_split_exists(rest, x);
        let k = choose|k: int| #[trigger] splits_at(rest, x, k);
        let n = s.len() - 1;
        if day_of(s[n]) < x {
            assert forall|i: int| 0 <= i < s.len() implies day_of(#[trigger] s[i]) < x by {
                if i < n {
                    assert(day_of(s[i]) < day_of(s[n]));
                }
            }
            assert(splits_at(s, x, s.len() as int));
        } else {
            assert forall|i: int| 0 <= i < k implies day_of(#[trigger] s[i]) < x by {
                assert(rest[i] == s[i]);
            }
            assert forall|i: int| k <= i < s.len() implies day_of(#[trigger] s[i]) >= x by {
                if i < n {
                    assert(rest[i] == s[i]);
                }
            }
            assert(splits_at(s, x, k));
        }
    }
}

/// The first index of a sorted store dated on or after day `x`.
spec fn choose_split(s: Seq<CommitData>, x: int) -> int {
    choose|k: int| #[trigger] splits_at(s, x, k)
}

/// Whether the records below index `k` are exactly those dated before day `x`.
spec fn splits_at(s: Seq<CommitData>, x: int, k: int) -> bool {
    &&& 0 <= k <= s.len()
    &&& forall|i: int| 0 <= i < k ==> day_of(#[trigger] s[i]) < x
    &&& forall|i: int| k <= i < s.len() ==> day_of(#[trigger] s[i]) >= x
}

/// Every record that a selection returns lies in the range, the records come
/// in ascending order of date, and selecting the same range again from what
/// was selected returns all of it.
pub proof fn lemma_select_laws(s: Seq<CommitData>, start: int, end: int)
    requires
        sorted_by_date(s),
    ensures
        ({
            let (lo, hi) = window(s, start, end);
            let sel = s.subrange(lo, hi);
            &&& forall|i: int| 0 <= i < sel.len() ==> start <= #[trigger] day_of(sel[i]) < end
            &&& sorted_by_date(sel)
            &&& window(sel, start, end) == (0int, sel.len() as int)
        }),
{
    lemma_window_selects(s, start, end);
    let (lo, hi) = window(s, start, end);
    let sel = s.subrange(lo, hi);
    assert forall|i: int| 0 <= i < sel.len() implies start <= #[trigger] day_of(sel[i]) < end by {
        assert(sel[i] == s[lo + i]);
    }
    assert forall|i: int, j: int| 0 <= i < j < sel.len() implies day_of(#[trigger] sel[i]) < day_of(
        #[trigger] sel[j],
    ) by {
        assert(sel[i] == s[lo + i] && sel[j] == s[lo + j]);
    }
    lemma_count_before_split(sel, start, 0);
    lemma_count_before_split(sel, end, sel.len() as int);
}

/// The index range `(lo, hi)` of the records of a sorted store dated in
/// `[start, end)`: a half-open range of day numbers. The records in range are
/// `data[lo..hi]`, earliest first, so the first and the last are at hand.
pub fn data_range(data: &Vec<CommitData>, start: i64, end: i64) -> (r: (usize, usize))
    requires
        sorted_by_date(data@),
    ensures
        r.0 as int == window(data@, start as int, end as int).0,
        r.1 as int == window(data@, start as int, end as int).1,
        selects(data@, r.0 as int, r.1 as int, start as int, end as int),
{
    let mut lo: usize = 0;
    while lo < data.len() && (data[lo].commit.date.day as i64) < start
        invariant
            lo <= data@.len(),
            sorted_by_date(data@),
            forall|i: int| 0 <= i < lo ==> day_of(#[trigger] data@[i]) < start,
        decreases data@.len() - lo,
    {
        lo = lo + 1;
    }
    assert forall|i: int| lo <= i < data@.len() implies day_of(#[trigger] data@[i]) >= start by {
        if i > lo {
            assert(day_of(data@[lo as int]) < day_of(data@[i]));
        }
    }
    proof {
        lemma_count_before_split(data@, start as int, lo as int);
    }
    let mut hi: usize = lo;
    while hi < data.len() && (data[hi].commit.date.day as i64) < end
        invariant
            lo <= hi <= data@.len(),
            sorted_by_date(data@),
            forall|i: int| 0 <= i < hi ==> day_of(#[trigger] data@[i]) < end || i < lo,
        decreases data@.len() - hi,
    {
        hi = hi + 1;
    }
    assert forall|i: int| hi <= i < data@.len() implies day_of(#[trigger] data@[i]) >= end by {
        if i > hi {
            assert(day_of(data@[hi as int]) < day_of(data@[i]));
        }
    }
    proof {
        lemma_window_selects(data@, start as int, end as int);
        lemma_split_exists(data@, end as int);
        let k = choose_split(data@, end as int);
        lemma_count_before_split(data@, end as int, k);
        if k >= lo {
            // Past `lo`, the records before `end` are exactly those below `hi`.
            assert forall|i: int| 0 <= i < hi implies day_of(#[trigger] data@[i]) < end by {
                if i < lo {
                    assert(i < k);
                }
            }
            lemma_count_before_split(data@, end as int, hi as int);
        } else {
            assert(hi == lo) by {
                if hi > lo {
                    assert(day_of(data@[lo as int]) < end);
                }
            }
        }
    }
    (lo, hi)
}

/// The store after recording `rec`: in order of date, replacing the record
/// of the same date if there is one.
pub open spec fn put(s: Seq<CommitData>, rec: CommitData) -> Seq<CommitData> {
    let k = count_before(s, day_of(rec));
    if k < s.len() && day_of(s[k]) == day_of(rec) {
        s.update(k, rec)
    } else {
        s.insert(k, rec)
    }
}

/// The store of a batch of records, recorded in order: one record per date,
/// the last of the batch with that date, in ascending order of date.
pub open spec fn store_of(rs: Seq<CommitData>) -> Seq<CommitData>
    decreases rs.len(),
{
    if rs.len() == 0 {
        Seq::empty()
    } else {
        put(store_of(rs.drop_last()), rs.last())
    }
}

/// The dates of a sequence of records.
pub open spec fn dates(s: Seq<CommitData>) -> Set<int> {
    Set::new(|d: int| exists|i: int| 0 <= i < s.len() && day_of(#[trigger] s[i]) == d)
}

proof fn lemma_put(s: Seq<CommitData>, rec: CommitData)
    requires
        sorted_by_date(s),
    ensures
        sorted_by_date(put(s, rec)),
        dates(put(s, rec)) == dates(s).insert(day_of(rec)),
{
    let d = day_of(rec);
    lemma_split_exists(s, d);
    let k = choose_split(s, d);
    lemma_count_before_split(s, d, k);
    let t = put(s, rec);
    if k < s.len() && day_of(s[k]) == d {
        assert forall|i: int| 0 <= i < s.len() implies day_of(#[trigger] t[i]) == day_of(s[i]) by {}
        assert forall|i: int, j: int| 0 <= i < j < t.len() implies day_of(#[trigger] t[i]) < day_of(
            #[trigger] t[j],
        ) by {
            assert(day_of(s[i]) < day_of(s[j]));
        }
        assert forall|x: int| dates(t).contains(x) <==> dates(s).insert(d).contains(x) by {
            if dates(t).contains(x) {
                let i = choose|i: int| 0 <= i < t.len() && day_of(#[trigger] t[i]) == x;
                assert(day_of(s[i]) == x);
            }
            if dates(s).contains(x) {
                let i = choose|i: int| 0 <= i < s.len() && day_of(#[trigger] s[i]) == x;
                assert(day_of(t[i]) == x);
            }
            if x == d {
                assert(day_of(t[k]) == x);
            }
        }
    } else {
        assert forall|i: int| k < i < s.len() implies day_of(#[trigger] s[i]) > d by {
            assert(day_of(s[k]) < day_of(s[i]));
        }
        assert forall|i: int, j: int| 0 <= i < j < t.len() implies day_of(#[trigger] t[i]) < day_of(
            #[trigger] t[j],
        ) by {
            if j < k {
                assert(day_of(s[i]) < day_of(s[j]));
            } else if i > k {
                assert(day_of(s[i - 1]) < day_of(s[j - 1]));
            } else if i == k {
                assert(t[j] == s[j - 1]);
            } else {
                assert(t[i] == s[i]);
            }
        }
        assert forall|x: int| dates(t).contains(x) <==> dates(s).insert(d).contains(x) by {
            if dates(t).contains(x) {
                let i = choose|i: int| 0 <= i < t.len() && day_of(#[trigger] t[i]) == x;
                if i < k {
                    assert(day_of(s[i]) == x);
                } else if i > k {
                    assert(day_of(s[i - 1]) == x);
                }
            }
            if dates(s).contains(x) {
                let i = choose|i: int| 0 <= i < s.len() && day_of(#[trigger] s[i]) == x;
                if i < k {
                    assert(day_of(t[i]) == x);
                } else {
                    assert(day_of(t[i + 1]) == x);
                }
            }
            if x == d {
                assert(day_of(t[k]) == x);
            }
        }
    }
    assert(dates(t) =~= dates(s).insert(d));
}

/// The store of a batch is sorted by date and holds exactly the batch's dates.
pub proof fn lemma_store_of(rs: Seq<CommitData>)
    ensures
        sorted_by_date(store_of(rs)),
        dates(store_of(rs)) == dates(rs),
    decreases rs.len(),
{
    if rs.len() > 0 {
        let rest = rs.drop_last();
        lemma_store_of(rest);
        lemma_put(store_of(rest), rs.last());
        assert forall|x: int| dates(rs).contains(x) <==> dates(rest).insert(day_of(rs.last())).contains(x) by {
            if dates(rs).contains(x) {
                let i = choose|i: int| 0 <= i < rs.len() && day_of(#[trigger] rs[i]) == x;
                if i < rs.len() - 1 {
                    assert(day_of(rest[i]) == x);
                }
            }
            if dates(rest).contains(x) {
                let i = choose|i: int| 0 <= i < rest.len() && day_of(#[trigger] rest[i]) == x;
                assert(day_of(rs[i]) == x);
            }
            if x == day_of(rs.last()) {
                assert(day_of(rs[rs.len() - 1]) == x);
            }
        }
        assert(dates(rs) =~= dates(rest).insert(day_of(rs.last())));
    } else {
        assert(dates(rs) =~= dates(store_of(rs)));
    }
}

/// A store built from a non-empty batch is not empty, and its last record
/// carries the latest date of the batch.
pub proof fn lemma_last_date_is_max(rs: Seq<CommitData>)
    requires
        rs.len() > 0,
    ensures
        store_of(rs).len() > 0,
        forall|j: int| 0 <= j < rs.len() ==> day_of(#[trigger] rs[j]) <= day_of(store_of(rs).last()),
        exists|j: int| 0 <= j < rs.len() && day_of(#[trigger] rs[j]) == day_of(store_of(rs).last()),
{
    lemma_store_of(rs);
    let s = store_of(rs);
    assert(dates(rs).contains(day_of(rs[0])));
    assert(dates(s).contains(day_of(rs[0])));
    assert(s.len() > 0);
    assert forall|j: int| 0 <= j < rs.len() implies day_of(#[trigger] rs[j]) <= day_of(s.last()) by {
        assert(dates(rs).contains(day_of(rs[j])));
        assert(dates(s).contains(day_of(rs[j])));
        let i = choose|i: int| 0 <= i < s.len() && day_of(#[trigger] s[i]) == day_of(rs[j]);
        if i < s.len() - 1 {
            assert(day_of(s[i]) < day_of(s[s.len() - 1]));
        }
    }
    assert(dates(s).contains(day_of(s[s.len() - 1])));
    assert(dates(rs).contains(day_of(s.last())));
}

/// Records `rec` in a sorted store, replacing the record of the same date.
fn put_record(store: &mut Vec<CommitData>, rec: CommitData)
    requires
        sorted_by_date(old(store)@),
    ensures
        final(store)@ == put(old(store)@, rec),
{
    let day: i32 = rec.commit.date.day;
    let mut k: usize = 0;
    while k < store.len() && store[k].commit.date.day < day
        invariant
            k <= store@.len(),
            sorted_by_date(store@),
            forall|i: int| 0 <= i < k ==> day_of(#[trigger] store@[i]) < day as int,
        decreases store@.len() - k,
    {
        k = k + 1;
    }
    proof {
        assert forall|i: int| k <= i < store@.len() implies day_of(#[trigger] store@[i]) >= day as int by {
            if i > k {
                assert(day_of(store@[k as int]) < day_of(store@[i]));
            }
        }
        lemma_count_before_split(store@, day as int, k as int);
    }
    if k < store.len() && store[k].commit.date.day == day {
        store[k] = rec;
    } else {
        store.insert(k, rec);
    }
}

/// Why a record store cannot be built.
#[derive(Clone, Copy, Debug, PartialEq, Eq, Structural)]
pub enum LoadError {
    /// The batch holds no record, so no date.
    NoDates,
    /// A patch holds other than exactly one run.
    MalformedPatch,
    /// The summary of the store cannot be built.
    Summary(SummaryError),
}

/// The full names of a sequence of patches.
pub open spec fn patch_names(ps: Seq<Patch>) -> Set<Seq<char>> {
    Set::new(|n: Seq<char>| exists|k: int| 0 <= k < ps.len() && (#[trigger] ps[k]).spec_full_name() == n)
}

/// The full name of every patch of every record.
pub open spec fn crate_names(s: Seq<CommitData>) -> Set<Seq<char>>
    decreases s.len(),
{
    if s.len() == 0 {
        Set::empty()
    } else {
        crate_names(s.drop_last()).union(patch_names(all_patches(s.last().benchmarks@)))
    }
}

/// The names of a sequence of passes.
pub open spec fn pass_names(passes: Seq<Pass>) -> Set<Seq<char>> {
    Set::new(|n: Seq<char>| exists|j: int| 0 <= j < passes.len() && (#[trigger] passes[j]).name@ == n)
}

/// The pass names of the runs of a sequence of patches.
pub open spec fn patch_phases(ps: Seq<Patch>) -> Set<Seq<char>>
    decreases ps.len(),
{
    if ps.len() == 0 {
        Set::empty()
    } else {
        patch_phases(ps.drop_last()).union(pass_names(ps.last().spec_run().passes@))
    }
}

/// The pass name of every pass of every patch's run of every record.
pub open spec fn phase_names(s: Seq<CommitData>) -> Set<Seq<char>>
    decreases s.len(),
{
    if s.len() == 0 {
        Set::empty()
    } else {
        phase_names(s.drop_last()).union(patch_phases(all_patches(s.last().benchmarks@)))
    }
}

proof fn lemma_all_patches_well_formed(groups: Seq<(String, Vec<Patch>)>)
    requires
        forall|g: int| 0 <= g < groups.len() ==> patches_well_formed(#[trigger] groups[g].1@),
    ensures
        patches_well_formed(all_patches(groups)),
    decreases groups.len(),
{
    if groups.len() > 0 {
        let rest = groups.drop_last();
        assert forall|g: int| 0 <= g < rest.len() implies patches_well_formed(#[trigger] rest[g].1@) by {
            assert(rest[g] == groups[g]);
        }
        lemma_all_patches_well_formed(rest);
        let a = all_patches(rest);
        let b = groups[groups.len() - 1].1@;
        assert(patches_well_formed(b));
        assert forall|k: int| 0 <= k < (a + b).len() implies (#[trigger] (a + b)[k]).well_formed() by {
            if k >= a.len() {
                assert((a + b)[k] == b[k - a.len()]);
            } else {
                assert((a + b)[k] == a[k]);
            }
        }
    }
}

proof fn lemma_put_well_formed(s: Seq<CommitData>, rec: CommitData)
    requires
        all_well_formed(s),
        rec.well_formed(),
    ensures
        all_well_formed(put(s, rec)),
{
    let t = put(s, rec);
    let k = count_before(s, day_of(rec));
    lemma_count_before_bounds(s, day_of(rec));
    assert forall|i: int| 0 <= i < t.len() implies (#[trigger] t[i]).well_formed() by {
        if k < s.len() && day_of(s[k]) == day_of(rec) {
            if i != k {
                assert(t[i] == s[i]);
            }
        } else if 0 <= k <= s.len() {
            if i < k {
                assert(t[i] == s[i]);
            } else if i > k {
                assert(t[i] == s[i - 1]);
            }
        }
    }
}

proof fn lemma_count_before_bounds(s: Seq<CommitData>, x: int)
    ensures
        0 <= count_before(s, x) <= s.len(),
    decreases s.len(),
{
    if s.len() > 0 {
        lemma_count_before_bounds(s.drop_last(), x);
    }
}

/// Whether every patch of a record holds exactly one run.
fn record_well_formed(c: &CommitData) -> (r: bool)
    ensures
        r == c.well_formed(),
{
    let mut g: usize = 0;
    while g < c.benchmarks.len()
        invariant
            g <= c.benchmarks@.len(),
            forall|x: int| 0 <= x < g ==> patches_well_formed(#[trigger] c.benchmarks@[x].1@),
        decreases c.benchmarks@.len() - g,
    {
        let ps = &c.benchmarks[g].1;
        let mut k: usize = 0;
        while k < ps.len()
            invariant
                k <= ps@.len(),
                g < c.benchmarks@.len(),
                ps@ == c.benchmarks@[g as int].1@,
                forall|y: int| 0 <= y < k ==> (#[trigger] ps@[y]).well_formed(),
            decreases ps@.len() - k,
        {
            if ps[k].runs.len() != 1 {
                assert(!ps@[k as int].well_formed());
                assert(!patches_well_formed(c.benchmarks@[g as int].1@));
                return false;
            }
            k = k + 1;
        }
        g = g + 1;
    }
    true
}

/// Adds the full names of some patches to a set.
fn add_patch_names(set: &mut StringHashSet, ps: &Vec<&Patch>)
    ensures
        final(set)@ == old(set)@.union(patch_names(deref_patches(ps@))),
{
    let ghost base = set@;
    let ghost all = deref_patches(ps@);
    let mut k: usize = 0;
    assert(patch_names(all.subrange(0, 0)) =~= Set::empty());
    assert(base.union(Set::empty()) =~= base);
    while k < ps.len()
        invariant
            k <= ps@.len(),
            all == deref_patches(ps@),
            set@ == base.union(patch_names(all.subrange(0, k as int))),
        decreases ps@.len() - k,
    {
        let name = ps[k].full_name();
        let ghost pre = all.subrange(0, k as int);
        let ghost next = all.subrange(0, k + 1);
        assert(all[k as int] == *ps@[k as int]);
        assert forall|n: Seq<char>| patch_names(next).contains(n) <==> patch_names(pre).insert(name@).contains(n) by {
            if patch_names(next).contains(n) {
                let j = choose|j: int| 0 <= j < next.len() && (#[trigger] next[j]).spec_full_name() == n;
                if j < k {
                    assert(pre[j] == next[j]);
                }
            }
            if patch_names(pre).contains(n) {
                let j = choose|j: int| 0 <= j < pre.len() && (#[trigger] pre[j]).spec_full_name() == n;
                assert(next[j] == pre[j]);
            }
            if n == name@ {
                assert(next[k as int].spec_full_name() == n);
            }
        }
        assert(patch_names(next) =~= patch_names(pre).insert(name@));
        set.insert(name);
        assert(set@ =~= base.union(patch_names(next)));
        k = k + 1;
    }
    assert(all.subrange(0, k as int) =~= all);
}

/// Adds the names of some passes to a set.
fn add_pass_names(set: &mut StringHashSet, passes: &Vec<Pass>)
    ensures
        final(set)@ == old(set)@.union(pass_names(passes@)),
{
    let ghost base = set@;
    let mut j: usize = 0;
    assert(pass_names(passes@.subrange(0, 0)) =~= Set::empty());
    assert(base.union(Set::empty()) =~= base);
    while j < passes.len()
        invariant
            j <= passes@.len(),
            set@ == base.union(pass_names(passes@.subrange(0, j as int))),
        decreases passes@.len() - j,
    {
        let name = passes[j].name.clone();
        let ghost pre = passes@.subrange(0, j as int);
        let ghost next = passes@.subrange(0, j + 1);
        assert forall|n: Seq<char>| pass_names(next).contains(n) <==> pass_names(pre).insert(name@).contains(n) by {
            if pass_names(next).contains(n) {
                let x = choose|x: int| 0 <= x < next.len() && (#[trigger] next[x]).name@ == n;
                if x < j {
                    assert(pre[x] == next[x]);
                }
            }
            if pass_names(pre).contains(n) {
                let x = choose|x: int| 0 <= x < pre.len() && (#[trigger] pre[x]).name@ == n;
                assert(next[x] == pre[x]);
            }
            if n == name@ {
                assert(next[j as int].name@ == n);
            }
        }
        assert(pass_names(next) =~= pass_names(pre).insert(name@));
        set.insert(name);
        assert(set@ =~= base.union(pass_names(next)));
        j = j + 1;
    }
    assert(passes@.subrange(0, j as int) =~= passes@);
}

/// Adds the pass names of the runs of some patches to a set.
fn add_patch_phases(set: &mut StringHashSet, ps: &Vec<&Patch>)
    requires
        patches_well_formed(deref_patches(ps@)),
    ensures
        final(set)@ == old(set)@.union(patch_phases(deref_patches(ps@))),
{
    let ghost base = set@;
    let ghost all = deref_patches(ps@);
    let mut k: usize = 0;
    assert(all.subrange(0, 0) =~= Seq::<Patch>::empty());
    assert(base.union(Set::empty()) =~= base);
    while k < ps.len()
        invariant
            k <= ps@.len(),
            all == deref_patches(ps@),
            patches_well_formed(all),
            set@ == base.union(patch_phases(all.subrange(0, k as int))),
        decreases ps@.len() - k,
    {
        let ghost pre = all.subrange(0, k as int);
        let ghost next = all.subrange(0, k + 1);
        assert(all[k as int] == *ps@[k as int]);
        assert(all[k as int].well_formed());
        let ghost before = set@;
        add_pass_names(set, &ps[k].run().passes);
        assert(next.drop_last() =~= pre);
        assert(set@ =~= base.union(patch_phases(next)));
        k = k + 1;
    }
    assert(all.subrange(0, k as int) =~= all);
}

/// A loaded data set: the records by date, the names seen in them, the
/// latest date, and the summary up to that date.
pub struct InputData {
    pub summary: Summary,
    /// The full name of every patch of every record.
    pub crate_list: StringHashSet,
    /// The name of every pass, across all records.
    pub phase_list: StringHashSet,
    /// The latest date of the records.
    pub last_date: Date,
    /// The records, one per date, in ascending order of date.
    pub data: Vec<CommitData>,
}

impl InputData {
    /// Whether the store is non-empty, sorted by date, holds only
    /// well-formed records, and its latest date is that of its last record.
    pub open spec fn well_formed(&self) -> bool {
        &&& self.data@.len() > 0
        &&& sorted_by_date(self.data@)
        &&& all_well_formed(self.data@)
        &&& self.last_date == self.data@.last().commit.date
    }

    /// Builds the store of a batch of records, taken in order: one record
    /// per date, the last of the batch with that date. Fails on an empty
    /// batch, on a patch without exactly one run, and where the summary up
    /// to the latest date cannot be built.
    pub fn new(records: Vec<CommitData>) -> (r: Result<InputData, LoadError>)
        ensures
            match r {
                Ok(d) => {
                    &&& d.well_formed()
                    &&& records@.len() > 0
                    &&& all_well_formed(records@)
                    &&& d.data@ == store_of(records@)
                    &&& d.last_date == d.data@.last().commit.date
                    &&& d.crate_list@ == crate_names(d.data@)
                    &&& d.phase_list@ == phase_names(d.data@)
                    &&& summary_of(d.summary, d.data@, d.last_date, WEEKS_IN_SUMMARY as int)
                },
                Err(LoadError::NoDates) => records@.len() == 0,
                Err(LoadError::MalformedPatch) => records@.len() > 0 && !all_well_formed(records@),
                Err(LoadError::Summary(e)) => {
                    &&& records@.len() > 0
                    &&& all_well_formed(records@)
                    &&& summary_error(
                        store_of(records@),
                        store_of(records@).last().commit.date,
                        WEEKS_IN_SUMMARY as int,
                    ) == Some(e)
                },
            },
    {
        if records.len() == 0 {
            return Err(LoadError::NoDates);
        }
        let mut i: usize = 0;
        while i < records.len()
            invariant
                i <= records@.len(),
                forall|x: int| 0 <= x < i ==> (#[trigger] records@[x]).well_formed(),
            decreases records@.len() - i,
        {
            if !record_well_formed(&records[i]) {
                return Err(LoadError::MalformedPatch);
            }
            i = i + 1;
        }
        let ghost batch = records@;
        let mut rest = records;
        let mut data: Vec<CommitData> = Vec::new();
        let mut n: usize = 0;
        assert(batch.subrange(0, 0) =~= Seq::<CommitData>::empty());
        assert(rest@ =~= batch.subrange(0, 0int + batch.len()));
        while rest.len() > 0
            invariant
                n + rest@.len() == batch.len(),
                batch.len() <= usize::MAX,
                rest@ == batch.subrange(n as int, batch.len() as int),
                data@ == store_of(batch.subrange(0, n as int)),
                sorted_by_date(data@),
                all_well_formed(batch),
                all_well_formed(data@),
            decreases rest@.len(),
        {
            let rec = rest.remove(0);
            proof {
                assert(rec == batch[n as int]);
                assert(batch.subrange(0, n + 1).drop_last() =~= batch.subrange(0, n as int));
                lemma_put(data@, rec);
                lemma_put_well_formed(data@, rec);
            }
            put_record(&mut data, rec);
            assert(rest@ =~= batch.subrange(n + 1, batch.len() as int));
            n = n + 1;
        }
        assert(batch.subrange(0, n as int) =~= batch);
        proof {
            lemma_last_date_is_max(batch);
        }
        let last_date = data[data.len() - 1].commit.date;
        let mut crate_list = StringHashSet::new();
        let mut phase_list = StringHashSet::new();
        let mut i: usize = 0;
        assert(data@.subrange(0, 0) =~= Seq::<CommitData>::empty());
        while i < data.len()
            invariant
                i <= data@.len(),
                all_well_formed(data@),
                crate_list@ == crate_names(data@.subrange(0, i as int)),
                phase_list@ == phase_names(data@.subrange(0, i as int)),
            decreases data@.len() - i,
        {
            let ps = data[i].patches();
            proof {
                let rec = data@[i as int];
                assert(rec.well_formed());
                assert forall|g: int| 0 <= g < rec.benchmarks@.len() implies patches_well_formed(
                    #[trigger] rec.benchmarks@[g].1@,
                ) by {}
                lemma_all_patches_well_formed(rec.benchmarks@);
                assert(data@.subrange(0, i + 1).drop_last() =~= data@.subrange(0, i as int));
            }
            add_patch_names(&mut crate_list, &ps);
            add_patch_phases(&mut phase_list, &ps);
            i = i + 1;
        }
        assert(data@.subrange(0, i as int) =~= data@);
        match Summary::new(&data, last_date) {
            Ok(summary) => Ok(InputData { summary, crate_list, phase_list, last_date, data }),
            Err(e) => Err(LoadError::Summary(e)),
        }
    }
}

/// The long-range window of a sorted, non-empty store, taken at the store's
/// latest date, always holds a record.
proof fn lemma_total_window_nonempty(s: Seq<CommitData>, weeks: int)
    requires
        sorted_by_date(s),
        s.len() > 0,
        weeks >= 0,
    ensures
        total_window(s, s.last().commit.date, weeks).0 < total_window(
            s,
            s.last().commit.date,
            weeks,
        ).1,
{
    let d = day_of(s.last());
    lemma_week_start_floor(d);
    let start = week_start(d) - 7 * (weeks + 1);
    let end = d + 7;
    assert(s.last() == s[s.len() - 1]);
    lemma_split_exists(s, start);
    let lo = choose_split(s, start);
    lemma_count_before_split(s, start, lo);
    assert(lo < s.len());
    assert forall|i: int| 0 <= i < s.len() implies day_of(#[trigger] s[i]) < end by {
        if i < s.len() - 1 {
            assert(day_of(s[i]) < day_of(s[s.len() - 1]));
        }
    }
    lemma_count_before_split(s, end, s.len() as int);
}

/// A non-empty batch of well-formed records has a store whose last record
/// carries the batch's latest date, and whose summary never lacks records:
/// loading such a batch fails only where two records cannot be compared.
pub proof fn lemma_nonempty_batch_loads(rs: Seq<CommitData>)
    requires
        rs.len() > 0,
    ensures
        store_of(rs).len() > 0,
        forall|j: int| 0 <= j < rs.len() ==> day_of(#[trigger] rs[j]) <= day_of(store_of(rs).last()),
        exists|j: int| 0 <= j < rs.len() && day_of(#[trigger] rs[j]) == day_of(store_of(rs).last()),
        summary_error(store_of(rs), store_of(rs).last().commit.date, WEEKS_IN_SUMMARY as int)
            != Some(SummaryError::NoRecordsInRange),
{
    lemma_last_date_is_max(rs);
    lemma_store_of(rs);
    lemma_total_window_nonempty(store_of(rs), WEEKS_IN_SUMMARY as int);
}

} // verus!
