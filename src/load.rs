use vstd::prelude::*;

use core::cmp::Ordering;

use crate::date::Date;

verus! {

/// One measured phase of a benchmark run. `time` is an elapsed time as an
/// integer count of one fixed unit, the same unit throughout a data set.
pub struct Pass {
    pub name: String,
    pub time: u64,
    pub mem: u64,
}

/// A named benchmark execution: its passes, in the order measured.
pub struct Run {
    pub name: String,
    pub passes: Vec<Pass>,
}

/// A benchmark variant applied to a crate. A well-formed patch holds exactly
/// one run.
pub struct Patch {
    pub patch: String,
    pub name: String,
    pub runs: Vec<Run>,
}

/// A commit: an opaque revision id and the day it was made. Commits are
/// ordered by date alone.
pub struct Commit {
    pub sha: String,
    pub date: Date,
}

/// The order of two commits: by date alone, so that two commits of one day
/// compare equal whatever their revision ids.
pub open spec fn date_order(a: Commit, b: Commit) -> Ordering {
    if a.date.day < b.date.day {
        Ordering::Less
    } else if a.date.day == b.date.day {
        Ordering::Equal
    } else {
        Ordering::Greater
    }
}

impl Commit {
    /// Compares two commits by date alone.
    pub fn cmp(&self, other: &Commit) -> (r: Ordering)
        ensures
            r == date_order(*self, *other),
    {
        if self.date.day < other.date.day {
            Ordering::Less
        } else if self.date.day == other.date.day {
            Ordering::Equal
        } else {
            Ordering::Greater
        }
    }

    /// Compares two commits by date alone; commits are always comparable.
    pub fn partial_cmp(&self, other: &Commit) -> (r: Option<Ordering>)
        ensures
            r == Some(date_order(*self, *other)),
    {
        Some(self.cmp(other))
    }

    /// A copy of the commit.
    pub fn copy(&self) -> (r: Commit)
        ensures
            r == *self,
    {
        Commit { sha: self.sha.clone(), date: self.date }
    }
}

/// The benchmark results of one commit: for each benchmark group, by name,
/// its patches. A group is looked up by the first entry with its name.
pub struct CommitData {
    pub commit: Commit,
    pub benchmarks: Vec<(String, Vec<Patch>)>,
}

/// The first pass named `name`, if there is one.
pub open spec fn find_pass(passes: Seq<Pass>, name: Seq<char>) -> Option<Pass>
    decreases passes.len(),
{
    if passes.len() == 0 {
        None
    } else if passes[0].name@ == name {
        Some(passes[0])
    } else {
        find_pass(passes.drop_first(), name)
    }
}

/// The patches of the first group named `name`, if there is one.
pub open spec fn find_group(groups: Seq<(String, Vec<Patch>)>, name: Seq<char>) -> Option<
    Seq<Patch>,
>
    decreases groups.len(),
{
    if groups.len() == 0 {
        None
    } else if groups[0].0@ == name {
        Some(groups[0].1@)
    } else {
        find_group(groups.drop_first(), name)
    }
}

/// All patches of all groups, group by group.
pub open spec fn all_patches(groups: Seq<(String, Vec<Patch>)>) -> Seq<Patch>
    decreases groups.len(),
{
    if groups.len() == 0 {
        Seq::empty()
    } else {
        all_patches(groups.drop_last()) + groups.last().1@
    }
}

/// The patches that a sequence of references points to.
pub open spec fn deref_patches(s: Seq<&Patch>) -> Seq<Patch> {
    s.map_values(|p: &Patch| *p)
}

impl Patch {
    /// The name by which a patch is matched across commits.
    pub open spec fn spec_full_name(&self) -> Seq<char> {
        self.name@ + self.patch@
    }

    /// Whether the patch holds exactly one run.
    pub open spec fn well_formed(&self) -> bool {
        self.runs@.len() == 1
    }

    /// The patch's single run.
    pub open spec fn spec_run(&self) -> Run {
        self.runs@[0]
    }

    /// The patch's name followed by its patch id.
    pub fn full_name(&self) -> (r: String)
        ensures
            r@ == self.spec_full_name(),
    {
        self.name.clone().concat(self.patch.as_str())
    }

    /// The patch's single run.
    pub fn run(&self) -> (r: &Run)
        requires
            self.well_formed(),
        ensures
            *r == self.spec_run(),
    {
        &self.runs[0]
    }
}

impl Run {
    /// The first pass with the given name, if any.
    pub fn get_pass(&self, pass: &String) -> (r: Option<&Pass>)
        ensures
            match r {
                Some(p) => find_pass(self.passes@, pass@) == Some(*p),
                None => find_pass(self.passes@, pass@) is None,
            },
    {
        let mut i: usize = 0;
        assert(self.passes@.subrange(0, self.passes@.len() as int) =~= self.passes@);
        while i < self.passes.len()
            invariant
                i <= self.passes@.len(),
                find_pass(self.passes@, pass@) == find_pass(
                    self.passes@.subrange(i as int, self.passes@.len() as int),
                    pass@,
                ),
            decreases self.passes@.len() - i,
        {
            let ghost rest = self.passes@.subrange(i as int, self.passes@.len() as int);
            assert(rest.drop_first() =~= self.passes@.subrange(
                i + 1,
                self.passes@.len() as int,
            ));
            if self.passes[i].name == *pass {
                return Some(&self.passes[i]);
            }
            i = i + 1;
        }
        None
    }
}

/// Whether every patch holds exactly one run.
pub open spec fn patches_well_formed(patches: Seq<Patch>) -> bool {
    forall|k: int| 0 <= k < patches.len() ==> (#[trigger] patches[k]).well_formed()
}

impl CommitData {
    /// Whether every patch of every group holds exactly one run.
    pub open spec fn well_formed(&self) -> bool {
        forall|g: int|
            0 <= g < self.benchmarks@.len() ==> patches_well_formed(
                #[trigger] self.benchmarks@[g].1@,
            )
    }

    /// The index of the first group with the given name, if any.
    pub fn group_index(&self, name: &String) -> (r: Option<usize>)
        ensures
            match r {
                Some(g) => g < self.benchmarks@.len() && find_group(self.benchmarks@, name@)
                    == Some(self.benchmarks@[g as int].1@),
                None => find_group(self.benchmarks@, name@) is None,
            },
    {
        let mut g: usize = 0;
        assert(self.benchmarks@.subrange(0, self.benchmarks@.len() as int) =~= self.benchmarks@);
        while g < self.benchmarks.len()
            invariant
                g <= self.benchmarks@.len(),
                find_group(self.benchmarks@, name@) == find_group(
                    self.benchmarks@.subrange(g as int, self.benchmarks@.len() as int),
                    name@,
                ),
            decreases self.benchmarks@.len() - g,
        {
            let ghost rest = self.benchmarks@.subrange(g as int, self.benchmarks@.len() as int);
            assert(rest.drop_first() =~= self.benchmarks@.subrange(
                g + 1,
                self.benchmarks@.len() as int,
            ));
            if self.benchmarks[g].0 == *name {
                return Some(g);
            }
            g = g + 1;
        }
        None
    }

    /// All patches of all groups, group by group.
    pub fn patches(&self) -> (r: Vec<&Patch>)
        ensures
            deref_patches(r@) == all_patches(self.benchmarks@),
    {
        let mut r: Vec<&Patch> = Vec::new();
        let mut g: usize = 0;
        while g < self.benchmarks.len()
            invariant
                g <= self.benchmarks@.len(),
                deref_patches(r@) == all_patches(self.benchmarks@.subrange(0, g as int)),
            decreases self.benchmarks@.len() - g,
        {
            let patches = &self.benchmarks[g].1;
            let ghost before = deref_patches(r@);
            let mut k: usize = 0;
            while k < patches.len()
                invariant
                    k <= patches@.len(),
                    deref_patches(r@) == before + patches@.subrange(0, k as int),
                decreases patches@.len() - k,
            {
                let ghost old_r = r@;
                r.push(&patches[k]);
                assert(deref_patches(r@) =~= deref_patches(old_r).push(patches@[k as int]));
                assert(patches@.subrange(0, k + 1) =~= patches@.subrange(0, k as int).push(
                    patches@[k as int],
                ));
                assert(deref_patches(r@) =~= before + patches@.subrange(0, k + 1));
                k = k + 1;
            }
            let ghost next = self.benchmarks@.subrange(0, g + 1);
            assert(next.drop_last() =~= self.benchmarks@.subrange(0, g as int));
            assert(patches@.subrange(0, k as int) =~= patches@);
            g = g + 1;
        }
        assert(self.benchmarks@.subrange(0, g as int) =~= self.benchmarks@);
        proof {
            assert(deref_patches(r@) =~= deref_patches(r@));
        }
        r
    }
}

} // verus!
