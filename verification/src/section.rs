//! A configured section: sources and destinations that are planned together.
use vstd::prelude::*;

use crate::files::{dirs_of, patterns_readable, Destination, FileGroup, FilePattern, PlanError};
use crate::planning::groups_nonempty;
use crate::pathmap::str_eq;
use crate::util::expand_home;

verus! {

/// The value of a setting that is on unless the configuration says otherwise.
pub fn default_true() -> (res: bool)
    ensures
        res,
{
    true
}

/// Sources and destinations that are processed together, independently of other sections.
pub struct Section {
    pub name: Option<String>,
    pub sources: Vec<FilePattern>,
    pub destinations: Vec<Destination>,
}

fn contains_string(dirs: &Vec<String>, s: &String) -> (res: bool)
    ensures
        res == exists|i: int| 0 <= i < dirs@.len() && dirs@[i]@ == s@,
{
    let mut i: usize = 0;
    while i < dirs.len()
        invariant
            i <= dirs@.len(),
            forall|j: int| 0 <= j < i ==> dirs@[j]@ != s@,
        decreases dirs.len() - i,
    {
        if str_eq(dirs[i].as_str(), s.as_str()) {
            return true;
        }
        i = i + 1;
    }
    false
}

/// `dirs` holds a string equal to `s`.
pub open spec fn holds_str(dirs: Seq<String>, s: Seq<char>) -> bool {
    exists|i: int| 0 <= i < dirs.len() && dirs[i]@ == s
}

/// Adds each of `from` to `dirs` unless an equal string is there already.
fn add_distinct(dirs: &mut Vec<String>, from: Vec<String>)
    requires
        forall|i: int, j: int| 0 <= i < j < old(dirs)@.len() ==> old(dirs)@[i]@ != old(dirs)@[j]@,
    ensures
        forall|i: int, j: int| 0 <= i < j < final(dirs)@.len() ==> final(dirs)@[i]@ != final(dirs)@[j]@,
        forall|i: int| 0 <= i < final(dirs)@.len() ==> holds_str(old(dirs)@, (#[trigger] final(dirs)@[i])@)
            || holds_str(from@, final(dirs)@[i]@),
        forall|j: int| 0 <= j < old(dirs)@.len() ==> holds_str(final(dirs)@, (#[trigger] old(dirs)@[j])@),
        forall|j: int| 0 <= j < from@.len() ==> holds_str(final(dirs)@, (#[trigger] from@[j])@),
{
    let ghost start = dirs@;
    let ghost all = from@;
    for d in it: from
        invariant
            it.seq() == all,
            forall|i: int, j: int| 0 <= i < j < dirs@.len() ==> dirs@[i]@ != dirs@[j]@,
            start.len() <= dirs@.len(),
            forall|i: int| 0 <= i < start.len() ==> dirs@[i] == start[i],
            forall|i: int| 0 <= i < dirs@.len() ==> holds_str(start, (#[trigger] dirs@[i])@) || holds_str(all, dirs@[i]@),
            forall|j: int| 0 <= j < it.index() ==> holds_str(dirs@, (#[trigger] all[j])@),
    {
        let ghost n = it.index() as int;
        assert(all[n] == d);
        let ghost before = dirs@;
        if !contains_string(dirs, &d) {
            dirs.push(d);
            proof {
                assert(dirs@[before.len() as int]@ == all[n]@);
                assert forall|j: int| 0 <= j < n + 1 implies holds_str(dirs@, (#[trigger] all[j])@) by {
                    if j < n {
                        assert(holds_str(before, all[j]@));
                        let i = choose|i: int| 0 <= i < before.len() && before[i]@ == all[j]@;
                        assert(dirs@[i] == before[i]);
                    } else {
                        assert(dirs@[before.len() as int]@ == all[j]@);
                    }
                }
                assert forall|i: int| 0 <= i < dirs@.len() implies holds_str(start, (#[trigger] dirs@[i])@) || holds_str(all, dirs@[i]@) by {
                    if i == before.len() {
                        assert(all[n]@ == dirs@[i]@);
                    } else {
                        assert(dirs@[i] == before[i]);
                    }
                }
            }
        } else {
            proof {
                assert(holds_str(dirs@, all[n]@));
            }
        }
    }
    proof {
        assert forall|j: int| 0 <= j < start.len() implies holds_str(dirs@, (#[trigger] start[j])@) by {
            assert(dirs@[j] == start[j]);
        }
    }
}

/// `s` is one of the strings of `lists`.
pub open spec fn in_lists(lists: Seq<Seq<String>>, s: Seq<char>) -> bool {
    exists|k: int, j: int| 0 <= k < lists.len() && 0 <= j < lists[k].len() && lists[k][j]@ == s
}

/// `dirs` holds exactly the strings of `lists`, which are `n` lists of `m` strings.
pub open spec fn dirs_from(dirs: Seq<String>, lists: Seq<Seq<String>>, n: int, m: int) -> bool {
    &&& lists.len() == n
    &&& forall|k: int| 0 <= k < n ==> (#[trigger] lists[k]).len() == m
    &&& forall|d: int| 0 <= d < dirs.len() ==> in_lists(lists, (#[trigger] dirs[d])@)
    &&& forall|k: int, j: int| 0 <= k < lists.len() && 0 <= j < lists[k].len() ==> holds_str(dirs, (#[trigger] lists[k][j])@)
}

/// `lists` holds, for each destination, the directory of each group there, as `dirs_of`
/// says.
pub open spec fn lists_of(destinations: Seq<Destination>, groups: Seq<FileGroup>, lists: Seq<Seq<String>>) -> bool {
    &&& lists.len() == destinations.len()
    &&& forall|k: int|
        0 <= k < destinations.len() ==> dirs_of((#[trigger] destinations[k]).dir_pattern@, groups, lists[k])
}

/// chrono reads the date patterns of every destination.
pub open spec fn all_readable(destinations: Seq<Destination>) -> bool {
    forall|k: int|
        0 <= k < destinations.len() ==> patterns_readable(
            (#[trigger] destinations[k]).dir_pattern@,
            destinations[k].file_pattern@,
        )
}

impl Section {
    /// Replaces `~` by `home` in the directory patterns of the sources and destinations.
    pub fn expand_paths(&mut self, home: &str)
        ensures
            final(self).name == old(self).name,
            final(self).sources@.len() == old(self).sources@.len(),
            final(self).destinations@.len() == old(self).destinations@.len(),
            forall|i: int| 0 <= i < final(self).sources@.len() ==> (#[trigger] final(self).sources@[i]).dir_pattern@ == expand_home(old(self).sources@[i].dir_pattern@, home@)
                && final(self).sources@[i].file_regex == old(self).sources@[i].file_regex,
            forall|i: int| 0 <= i < final(self).destinations@.len() ==> (#[trigger] final(self).destinations@[i]).dir_pattern@ == expand_home(old(self).destinations@[i].dir_pattern@, home@)
                && final(self).destinations@[i].file_pattern == old(self).destinations@[i].file_pattern,
    {
        let mut sources: Vec<FilePattern> = Vec::new();
        std::mem::swap(&mut sources, &mut self.sources);
        let ghost old_sources = sources@;
        let mut expanded: Vec<FilePattern> = Vec::new();
        for s in it: sources
            invariant
                it.seq() == old_sources,
                expanded@.len() == it.index(),
                forall|i: int| 0 <= i < it.index() ==> (#[trigger] expanded@[i]).dir_pattern@ == expand_home(old_sources[i].dir_pattern@, home@)
                    && expanded@[i].file_regex == old_sources[i].file_regex,
        {
            let mut s = s;
            s.expand_paths(home);
            expanded.push(s);
        }
        self.sources = expanded;
        let mut destinations: Vec<Destination> = Vec::new();
        std::mem::swap(&mut destinations, &mut self.destinations);
        let ghost old_destinations = destinations@;
        let mut done: Vec<Destination> = Vec::new();
        for d in it: destinations
            invariant
                it.seq() == old_destinations,
                done@.len() == it.index(),
                forall|i: int| 0 <= i < it.index() ==> (#[trigger] done@[i]).dir_pattern@ == expand_home(old_destinations[i].dir_pattern@, home@)
                    && done@[i].file_pattern == old_destinations[i].file_pattern,
        {
            let mut d = d;
            d.expand_paths(home);
            done.push(d);
        }
        self.destinations = done;
    }

    /// The directories that the groups go to at any destination, each once: with the lists
    /// that `Destination::get_dirs` gives at each destination (the directory pattern filled
    /// in with each group's earliest time at the local UTC offset), each of their directories
    /// is in the result, and nothing else is.
    pub fn get_dest_dirs(&self, groups: &[FileGroup]) -> (res: Result<Vec<String>, PlanError>)
        requires
            groups_nonempty(groups@),
        ensures
            res is Ok <==> groups@.len() == 0 || all_readable(self.destinations@),
            res matches Ok(dirs) ==> forall|i: int, j: int| 0 <= i < j < dirs@.len() ==> dirs@[i]@ != dirs@[j]@,
            res matches Ok(dirs) ==> exists|lists: Seq<Seq<String>>|
                #[trigger] dirs_from(dirs@, lists, self.destinations@.len() as int, groups@.len() as int)
                    && lists_of(self.destinations@, groups@, lists),
            res matches Err(e) ==> e == PlanError::TimeFormat,
    {
        let mut dirs: Vec<String> = Vec::new();
        let ghost mut lists: Seq<Seq<String>> = Seq::empty();
        let mut i: usize = 0;
        while i < self.destinations.len()
            invariant
                i <= self.destinations@.len(),
                groups_nonempty(groups@),
                forall|a: int, b: int| 0 <= a < b < dirs@.len() ==> dirs@[a]@ != dirs@[b]@,
                dirs_from(dirs@, lists, i as int, groups@.len() as int),
                lists_of(self.destinations@.take(i as int), groups@, lists),
                groups@.len() > 0 ==> all_readable(self.destinations@.take(i as int)),
            decreases self.destinations.len() - i,
        {
            let found = match self.destinations[i].get_dirs(groups) {
                Ok(v) => v,
                Err(e) => {
                    proof {
                        assert(!patterns_readable(
                            self.destinations@[i as int].dir_pattern@,
                            self.destinations@[i as int].file_pattern@,
                        ));
                    }
                    return Err(e);
                },
            };
            let ghost before = dirs@;
            let ghost f = found@;
            add_distinct(&mut dirs, found);
            proof {
                let new_lists = lists.push(f);
                assert forall|d: int| 0 <= d < dirs@.len() implies in_lists(new_lists, (#[trigger] dirs@[d])@) by {
                    if holds_str(before, dirs@[d]@) {
                        let x = choose|x: int| 0 <= x < before.len() && before[x]@ == dirs@[d]@;
                        assert(in_lists(lists, before[x]@));
                        let (k, j) = choose|k: int, j: int| 0 <= k < lists.len() && 0 <= j < lists[k].len() && lists[k][j]@ == before[x]@;
                        assert(new_lists[k] == lists[k]);
                    } else {
                        assert(holds_str(f, dirs@[d]@));
                        let j = choose|j: int| 0 <= j < f.len() && f[j]@ == dirs@[d]@;
                        assert(new_lists[lists.len() as int] == f);
                    }
                }
                assert forall|k: int, j: int| 0 <= k < new_lists.len() && 0 <= j < new_lists[k].len() implies holds_str(dirs@, (#[trigger] new_lists[k][j])@) by {
                    if k < lists.len() {
                        assert(new_lists[k] == lists[k]);
                        assert(holds_str(before, lists[k][j]@));
                        let x = choose|x: int| 0 <= x < before.len() && before[x]@ == lists[k][j]@;
                        assert(holds_str(dirs@, (before[x])@));
                    } else {
                        assert(new_lists[k] == f);
                        assert(holds_str(dirs@, f[j]@));
                    }
                }
                let ds = self.destinations@.take(i + 1);
                assert forall|k: int| 0 <= k < ds.len() implies dirs_of((#[trigger] ds[k]).dir_pattern@, groups@, new_lists[k]) by {
                    if k < i {
                        assert(ds[k] == self.destinations@.take(i as int)[k]);
                        assert(new_lists[k] == lists[k]);
                    }
                }
                assert forall|k: int| 0 <= k < ds.len() && groups@.len() > 0 implies patterns_readable(
                    (#[trigger] ds[k]).dir_pattern@,
                    ds[k].file_pattern@,
                ) by {
                    if k < i {
                        assert(ds[k] == self.destinations@.take(i as int)[k]);
                    }
                }
                lists = new_lists;
            }
            i = i + 1;
        }
        proof {
            assert(self.destinations@.take(i as int) =~= self.destinations@);
        }
        let res: Result<Vec<String>, PlanError> = Ok(dirs);
        assert(res matches Ok(d) && dirs_from(d@, lists, self.destinations@.len() as int, groups@.len() as int) && lists_of(self.destinations@, groups@, lists));
        res
    }
}

} // verus!
