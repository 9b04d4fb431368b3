//! Planning copies to a destination: the suffix that keeps a group from overwriting
//! different files, the cutoff time of a source, and the copies of every source in turn.
use vstd::prelude::*;

use crate::clock::strftime_rejects;
use crate::clock::offset_ok;
use crate::files::{
    is_layout_of, is_moves, layout_at, min_modified, patterns_readable, placeholder,
    same_content, target_path, Destination, FileGroup, FileInfo, FileView, GroupLayout,
    PlanError,
};
use crate::pathmap::PathMap;
use crate::plan::{lemma_after_move_count, Plan, PlanView};
use crate::text::{chars_of, contains_seq, contains_str};

verus! {

/// Copying `f` to `path` would overwrite a file whose content is taken to differ.
pub open spec fn clashes(existing: Map<Seq<char>, FileView>, f: FileView, path: Seq<char>) -> bool {
    existing.dom().contains(path) && !same_content(f, existing[path])
}

/// The view of a map of files.
pub open spec fn file_views(m: Map<Seq<char>, FileInfo>) -> Map<Seq<char>, FileView> {
    m.map_values(|f: FileInfo| f@)
}

/// With `suffix`, some file of the group would overwrite a different existing file.
pub open spec fn conflict_at(
    files: Seq<FileView>,
    dir: Seq<char>,
    file_format: Seq<char>,
    existing: Map<Seq<char>, FileView>,
    suffix: int,
) -> bool {
    exists|i: int|
        0 <= i < files.len() && clashes(
            existing,
            #[trigger] files[i],
            target_path(dir, file_format, files[i], suffix as nat),
        )
}

/// With `suffix`, every file of the group is already at its target path.
pub open spec fn all_present(
    files: Seq<FileView>,
    dir: Seq<char>,
    file_format: Seq<char>,
    existing: Map<Seq<char>, FileView>,
    suffix: int,
) -> bool {
    forall|i: int|
        0 <= i < files.len() ==> existing.dom().contains(
            target_path(dir, file_format, #[trigger] files[i], suffix as nat),
        )
}

/// `suffix` is the least suffix up to `u64::MAX` without a conflict.
pub open spec fn is_first_free(
    files: Seq<FileView>,
    dir: Seq<char>,
    file_format: Seq<char>,
    existing: Map<Seq<char>, FileView>,
    suffix: int,
) -> bool {
    &&& 0 <= suffix <= u64::MAX
    &&& !conflict_at(files, dir, file_format, existing, suffix)
    &&& forall|t: int| 0 <= t < suffix ==> conflict_at(files, dir, file_format, existing, t)
}

/// Whether a file pattern holds `{suffix}`.
pub open spec fn has_suffix_placeholder(file_pattern: Seq<char>) -> bool {
    contains_seq(file_pattern, placeholder(seq!['s', 'u', 'f', 'f', 'i', 'x']))
}

/// The suffix that keeps a group from overwriting different files: 0 where nothing
/// conflicts; otherwise, if the pattern can take a suffix, the least suffix without a
/// conflict.
pub open spec fn suffix_outcome(
    files: Seq<FileView>,
    dir: Seq<char>,
    file_format: Seq<char>,
    existing: Map<Seq<char>, FileView>,
    suffix_placeholder: bool,
) -> Result<u64, PlanError> {
    if !conflict_at(files, dir, file_format, existing, 0) {
        Ok(0)
    } else if !suffix_placeholder {
        Err(PlanError::NoSuffixPlaceholder)
    } else if exists|s: int| is_first_free(files, dir, file_format, existing, s) {
        Ok((choose|s: int| is_first_free(files, dir, file_format, existing, s)) as u64)
    } else {
        Err(PlanError::SuffixExhausted)
    }
}

/// The least free suffix is unique.
pub proof fn lemma_first_free_unique(
    files: Seq<FileView>,
    dir: Seq<char>,
    file_format: Seq<char>,
    existing: Map<Seq<char>, FileView>,
    s: int,
)
    requires
        is_first_free(files, dir, file_format, existing, s),
    ensures
        (choose|t: int| is_first_free(files, dir, file_format, existing, t)) == s,
{
    let t = choose|t: int| is_first_free(files, dir, file_format, existing, t);
    assert(is_first_free(files, dir, file_format, existing, t));
    if t < s {
        assert(conflict_at(files, dir, file_format, existing, t));
    } else if s < t {
        assert(conflict_at(files, dir, file_format, existing, s));
    }
}

/// Inserting a file into a map of files inserts its view into the map of views.
pub proof fn lemma_file_views_insert(m: Map<Seq<char>, FileInfo>, k: Seq<char>, f: FileInfo)
    ensures
        file_views(m.insert(k, f)) == file_views(m).insert(k, f@),
{
    assert(file_views(m.insert(k, f)) =~= file_views(m).insert(k, f@));
}

impl FileGroup {
    /// Whether, under `layout` and with `suffix`, some file would overwrite a different
    /// existing file.
    pub fn conflicts_in(&self, layout: &GroupLayout, suffix: u64, existing: &PathMap<FileInfo>) -> (res:
        bool)
        requires
            existing.wf(),
        ensures
            res == conflict_at(
                self@,
                layout.dir@,
                layout.file_format@,
                file_views(existing@),
                suffix as int,
            ),
    {
        let moves = self.moves_in(layout, suffix);
        let ghost files = self@;
        let ghost ex = file_views(existing@);
        let mut i: usize = 0;
        while i < moves.len()
            invariant
                i <= moves@.len(),
                existing.wf(),
                files == self@,
                ex == file_views(existing@),
                is_moves(moves@, self.files@, layout.dir@, layout.file_format@, suffix as nat),
                forall|j: int|
                    0 <= j < i ==> !clashes(
                        ex,
                        #[trigger] files[j],
                        target_path(layout.dir@, layout.file_format@, files[j], suffix as nat),
                    ),
            decreases moves.len() - i,
        {
            let (dest, file) = (&moves[i].0, moves[i].1);
            assert(moves@[i as int].0@ == target_path(
                layout.dir@,
                layout.file_format@,
                files[i as int],
                suffix as nat,
            ));
            match existing.get(dest.as_str()) {
                Some(other) => {
                    if !file.content_matches(other) {
                        assert(clashes(
                            ex,
                            files[i as int],
                            target_path(layout.dir@, layout.file_format@, files[i as int], suffix as nat),
                        ));
                        return true;
                    }
                },
                None => {},
            }
            i = i + 1;
        }
        false
    }

    /// Whether, under `layout` and with `suffix`, every file is already at its target path.
    pub fn all_present_in(&self, layout: &GroupLayout, suffix: u64, existing: &PathMap<FileInfo>) -> (res:
        bool)
        requires
            existing.wf(),
        ensures
            res == all_present(
                self@,
                layout.dir@,
                layout.file_format@,
                file_views(existing@),
                suffix as int,
            ),
    {
        let moves = self.moves_in(layout, suffix);
        let ghost files = self@;
        let ghost ex = file_views(existing@);
        let mut i: usize = 0;
        while i < moves.len()
            invariant
                i <= moves@.len(),
                existing.wf(),
                files == self@,
                ex == file_views(existing@),
                is_moves(moves@, self.files@, layout.dir@, layout.file_format@, suffix as nat),
                forall|j: int|
                    0 <= j < i ==> ex.dom().contains(
                        target_path(layout.dir@, layout.file_format@, #[trigger] files[j], suffix as nat),
                    ),
            decreases moves.len() - i,
        {
            assert(moves@[i as int].0@ == target_path(
                layout.dir@,
                layout.file_format@,
                files[i as int],
                suffix as nat,
            ));
            if !existing.contains_key(moves[i].0.as_str()) {
                return false;
            }
            i = i + 1;
        }
        true
    }

    /// The suffix for this group under `layout`, as `suffix_outcome` says.
    pub fn get_unique_suffix_in(
        &self,
        layout: &GroupLayout,
        existing: &PathMap<FileInfo>,
        suffix_placeholder: bool,
    ) -> (res: Result<u64, PlanError>)
        requires
            existing.wf(),
        ensures
            res != Err::<u64, PlanError>(PlanError::TimeFormat),
            res == suffix_outcome(
                self@,
                layout.dir@,
                layout.file_format@,
                file_views(existing@),
                suffix_placeholder,
            ),
    {
        let ghost files = self@;
        let ghost ex = file_views(existing@);
        let ghost d = layout.dir@;
        let ghost f = layout.file_format@;
        let mut suffix: u64 = 0;
        loop
            invariant
                existing.wf(),
                files == self@,
                ex == file_views(existing@),
                d == layout.dir@,
                f == layout.file_format@,
                forall|t: int| 0 <= t < suffix ==> conflict_at(files, d, f, ex, t),
                suffix > 0 ==> suffix_placeholder,
            decreases u64::MAX - suffix,
        {
            if !self.conflicts_in(layout, suffix, existing) {
                proof {
                    if suffix > 0 {
                        assert(conflict_at(files, d, f, ex, 0));
                        assert(is_first_free(files, d, f, ex, suffix as int));
                        lemma_first_free_unique(files, d, f, ex, suffix as int);
                        assert(suffix_outcome(files, d, f, ex, suffix_placeholder) == Ok::<
                            u64,
                            PlanError,
                        >(suffix));
                    }
                }
                return Ok(suffix);
            }
            if !suffix_placeholder {
                return Err(PlanError::NoSuffixPlaceholder);
            }
            if suffix == u64::MAX {
                proof {
                    assert(conflict_at(files, d, f, ex, 0));
                    assert forall|s: int| !is_first_free(files, d, f, ex, s) by {
                        if 0 <= s <= u64::MAX {
                            assert(conflict_at(files, d, f, ex, s));
                        }
                    }
                }
                return Err(PlanError::SuffixExhausted);
            }
            suffix = suffix + 1;
        }
    }

    /// The suffix that keeps the group from overwriting different files at `destination`:
    /// as `suffix_outcome` says for the layout the destination gives the group, as
    /// `layout_at` says at the local UTC offset.
    pub fn get_unique_suffix(&self, existing: &PathMap<FileInfo>, destination: &Destination) -> (res:
        Result<u64, PlanError>)
        requires
            existing.wf(),
            self.files@.len() > 0,
        ensures
            res == Err::<u64, PlanError>(PlanError::TimeFormat) <==> !patterns_readable(
                destination.dir_pattern@,
                destination.file_pattern@,
            ),
            res != Err::<u64, PlanError>(PlanError::TimeFormat) ==> exists|o: int|
                offset_ok(o) && suffix_outcome(
                    self@,
                    (#[trigger] layout_at(destination.dir_pattern@, destination.file_pattern@, self@, o)).0,
                    layout_at(destination.dir_pattern@, destination.file_pattern@, self@, o).1,
                    file_views(existing@),
                    has_suffix_placeholder(destination.file_pattern@),
                ) == res,
    {
        let layout = match destination.layout(self) {
            Ok(l) => l,
            Err(e) => return Err(e),
        };
        let has = destination.takes_suffix();
        let res = self.get_unique_suffix_in(&layout, existing, has);
        let ghost o = layout.offset as int;
        assert(suffix_outcome(
            self@,
            layout_at(destination.dir_pattern@, destination.file_pattern@, self@, o).0,
            layout_at(destination.dir_pattern@, destination.file_pattern@, self@, o).1,
            file_views(existing@),
            has_suffix_placeholder(destination.file_pattern@),
        ) == res);
        res
    }
}

impl View for GroupLayout {
    type V = (Seq<char>, Seq<char>);

    open spec fn view(&self) -> (Seq<char>, Seq<char>) {
        (self.dir@, self.file_format@)
    }
}

/// The views of a list of groups.
pub open spec fn groups_view(groups: Seq<FileGroup>) -> Seq<Seq<FileView>> {
    groups.map_values(|g: FileGroup| g@)
}

/// The views of a list of layouts.
pub open spec fn layouts_view(layouts: Seq<GroupLayout>) -> Seq<(Seq<char>, Seq<char>)> {
    layouts.map_values(|l: GroupLayout| l@)
}

/// The later of an optional time and a time.
pub open spec fn max_time(c: Option<int>, t: int) -> int {
    match c {
        Some(x) => if x > t {
            x
        } else {
            t
        },
        None => t,
    }
}

/// Of the first `k` groups of a source, the latest earliest time of a group whose files
/// are all at their targets already (with the group's suffix); the first error where
/// working out a suffix fails.
pub open spec fn cutoff_upto(
    groups: Seq<Seq<FileView>>,
    layouts: Seq<(Seq<char>, Seq<char>)>,
    existing: Map<Seq<char>, FileView>,
    suffix_placeholder: bool,
    k: int,
) -> Result<Option<int>, PlanError>
    decreases k,
{
    if k <= 0 {
        Ok(None)
    } else {
        match cutoff_upto(groups, layouts, existing, suffix_placeholder, k - 1) {
            Err(e) => Err(e),
            Ok(c) => {
                let g = groups[k - 1];
                let l = layouts[k - 1];
                match suffix_outcome(g, l.0, l.1, existing, suffix_placeholder) {
                    Err(e) => Err(e),
                    Ok(s) => if all_present(g, l.0, l.1, existing, s as int) {
                        Ok(Some(max_time(c, min_modified(g))))
                    } else {
                        Ok(c)
                    },
                }
            },
        }
    }
}

/// Once working out a cutoff has failed, it fails the same way for more groups.
pub proof fn lemma_cutoff_error_stays(
    groups: Seq<Seq<FileView>>,
    layouts: Seq<(Seq<char>, Seq<char>)>,
    existing: Map<Seq<char>, FileView>,
    suffix_placeholder: bool,
    k: int,
    m: int,
)
    requires
        k <= m,
        cutoff_upto(groups, layouts, existing, suffix_placeholder, k) is Err,
    ensures
        cutoff_upto(groups, layouts, existing, suffix_placeholder, m) == cutoff_upto(
            groups,
            layouts,
            existing,
            suffix_placeholder,
            k,
        ),
    decreases m - k,
{
    if k < m {
        lemma_cutoff_error_stays(groups, layouts, existing, suffix_placeholder, k, m - 1);
    }
}

/// All groups have files.
pub open spec fn groups_nonempty(groups: Seq<FileGroup>) -> bool {
    forall|i: int| 0 <= i < groups.len() ==> (#[trigger] groups[i]).files@.len() > 0
}

impl Destination {
    /// The cutoff time of a source, with the layouts of its groups, as `cutoff_upto` says
    /// for all its groups: groups no later than it are taken to be copied already.
    pub fn find_source_cutoff_in(
        &self,
        groups: &[FileGroup],
        layouts: &[GroupLayout],
        existing: &PathMap<FileInfo>,
        suffix_placeholder: bool,
    ) -> (res: Result<Option<i64>, PlanError>)
        requires
            existing.wf(),
            groups@.len() == layouts@.len(),
            groups_nonempty(groups@),
        ensures
            res != Err::<Option<i64>, PlanError>(PlanError::TimeFormat),
            match res {
                Ok(Some(t)) => cutoff_upto(
                    groups_view(groups@),
                    layouts_view(layouts@),
                    file_views(existing@),
                    suffix_placeholder,
                    groups@.len() as int,
                ) == Ok::<Option<int>, PlanError>(Some(t as int)),
                Ok(None) => cutoff_upto(
                    groups_view(groups@),
                    layouts_view(layouts@),
                    file_views(existing@),
                    suffix_placeholder,
                    groups@.len() as int,
                ) == Ok::<Option<int>, PlanError>(None),
                Err(e) => cutoff_upto(
                    groups_view(groups@),
                    layouts_view(layouts@),
                    file_views(existing@),
                    suffix_placeholder,
                    groups@.len() as int,
                ) == Err::<Option<int>, PlanError>(e),
            },
    {
        let ghost gv = groups_view(groups@);
        let ghost lv = layouts_view(layouts@);
        let ghost ex = file_views(existing@);
        let mut cutoff: Option<i64> = None;
        let mut i: usize = 0;
        while i < groups.len()
            invariant
                i <= groups@.len(),
                groups@.len() == layouts@.len(),
                existing.wf(),
                groups_nonempty(groups@),
                gv == groups_view(groups@),
                lv == layouts_view(layouts@),
                ex == file_views(existing@),
                cutoff_upto(gv, lv, ex, suffix_placeholder, i as int) == Ok::<Option<int>, PlanError>(
                    match cutoff {
                        Some(t) => Some(t as int),
                        None => None,
                    },
                ),
            decreases groups.len() - i,
        {
            let group = &groups[i];
            assert(group.files@.len() > 0);
            let suffix = match group.get_unique_suffix_in(&layouts[i], existing, suffix_placeholder) {
                Ok(s) => s,
                Err(e) => {
                    proof {
                        lemma_cutoff_error_stays(
                            gv,
                            lv,
                            ex,
                            suffix_placeholder,
                            i + 1,
                            groups@.len() as int,
                        );
                    }
                    return Err(e);
                },
            };
            if group.all_present_in(&layouts[i], suffix, existing) {
                let t = group.get_ts();
                cutoff = match cutoff {
                    Some(c) => if c > t {
                        Some(c)
                    } else {
                        Some(t)
                    },
                    None => Some(t),
                };
            }
            i = i + 1;
        }
        Ok(cutoff)
    }
}

/// The copies a group asks for with a layout and a suffix, in order.
pub open spec fn group_targets(files: Seq<FileView>, dir: Seq<char>, file_format: Seq<char>, suffix: int) -> Seq<
    (Seq<char>, FileView),
> {
    Seq::new(files.len(), |i: int| (target_path(dir, file_format, files[i], suffix as nat), files[i]))
}

/// The existing files and the plan after the first `k` of `targets`: each target path not
/// taken yet receives its file, in the existing files and in the plan.
pub open spec fn add_targets(
    state: (Map<Seq<char>, FileView>, PlanView),
    targets: Seq<(Seq<char>, FileView)>,
    k: int,
) -> (Map<Seq<char>, FileView>, PlanView)
    decreases k,
{
    if k <= 0 {
        state
    } else {
        let (existing, plan) = add_targets(state, targets, k - 1);
        let (dest, file) = targets[k - 1];
        if existing.dom().contains(dest) {
            (existing, plan)
        } else {
            (existing.insert(dest, file), plan.after_move(file, dest))
        }
    }
}

/// One group of a source: skipped if its earliest time is no later than the cutoff;
/// otherwise each file not yet at its target (with the group's suffix) is planned there.
pub open spec fn plan_group(
    state: (Map<Seq<char>, FileView>, PlanView),
    files: Seq<FileView>,
    layout: (Seq<char>, Seq<char>),
    cutoff: Option<int>,
    suffix_placeholder: bool,
) -> Result<(Map<Seq<char>, FileView>, PlanView), PlanError> {
    if cutoff matches Some(c) && min_modified(files) <= c {
        Ok(state)
    } else {
        match suffix_outcome(files, layout.0, layout.1, state.0, suffix_placeholder) {
            Err(e) => Err(e),
            Ok(s) => Ok(
                add_targets(state, group_targets(files, layout.0, layout.1, s as int), files.len() as int),
            ),
        }
    }
}

/// The first `k` groups of a source, one after the other, with the source's cutoff.
pub open spec fn plan_groups_upto(
    state: (Map<Seq<char>, FileView>, PlanView),
    groups: Seq<Seq<FileView>>,
    layouts: Seq<(Seq<char>, Seq<char>)>,
    cutoff: Option<int>,
    suffix_placeholder: bool,
    k: int,
) -> Result<(Map<Seq<char>, FileView>, PlanView), PlanError>
    decreases k,
{
    if k <= 0 {
        Ok(state)
    } else {
        match plan_groups_upto(state, groups, layouts, cutoff, suffix_placeholder, k - 1) {
            Err(e) => Err(e),
            Ok(st) => plan_group(st, groups[k - 1], layouts[k - 1], cutoff, suffix_placeholder),
        }
    }
}

/// One source: its cutoff, from the existing files before it, then its groups.
pub open spec fn plan_source(
    state: (Map<Seq<char>, FileView>, PlanView),
    groups: Seq<Seq<FileView>>,
    layouts: Seq<(Seq<char>, Seq<char>)>,
    suffix_placeholder: bool,
) -> Result<(Map<Seq<char>, FileView>, PlanView), PlanError> {
    match cutoff_upto(groups, layouts, state.0, suffix_placeholder, groups.len() as int) {
        Err(e) => Err(e),
        Ok(c) => plan_groups_upto(state, groups, layouts, c, suffix_placeholder, groups.len() as int),
    }
}

/// The first `k` sources, one after the other.
pub open spec fn plan_sources_upto(
    state: (Map<Seq<char>, FileView>, PlanView),
    sources: Seq<Seq<Seq<FileView>>>,
    layouts: Seq<Seq<(Seq<char>, Seq<char>)>>,
    suffix_placeholder: bool,
    k: int,
) -> Result<(Map<Seq<char>, FileView>, PlanView), PlanError>
    decreases k,
{
    if k <= 0 {
        Ok(state)
    } else {
        match plan_sources_upto(state, sources, layouts, suffix_placeholder, k - 1) {
            Err(e) => Err(e),
            Ok(st) => plan_source(st, sources[k - 1], layouts[k - 1], suffix_placeholder),
        }
    }
}

/// The number of files in a list of groups.
pub open spec fn files_in_groups(groups: Seq<Seq<FileView>>) -> nat
    decreases groups.len(),
{
    if groups.len() == 0 {
        0
    } else {
        files_in_groups(groups.drop_last()) + groups.last().len()
    }
}

/// The number of files in a list of sources.
pub open spec fn files_in_sources(sources: Seq<Seq<Seq<FileView>>>) -> nat
    decreases sources.len(),
{
    if sources.len() == 0 {
        0
    } else {
        files_in_sources(sources.drop_last()) + files_in_groups(sources.last())
    }
}

proof fn lemma_files_in_groups_take(groups: Seq<Seq<FileView>>, k: int)
    requires
        0 <= k <= groups.len(),
    ensures
        files_in_groups(groups.take(k)) <= files_in_groups(groups),
        k < groups.len() ==> files_in_groups(groups.take(k + 1)) == files_in_groups(groups.take(k))
            + groups[k].len(),
    decreases groups.len() - k,
{
    if k < groups.len() {
        assert(groups.take(k + 1).drop_last() =~= groups.take(k));
        lemma_files_in_groups_take(groups, k + 1);
    } else {
        assert(groups.take(k) =~= groups);
    }
}

proof fn lemma_files_in_sources_take(sources: Seq<Seq<Seq<FileView>>>, k: int)
    requires
        0 <= k <= sources.len(),
    ensures
        files_in_sources(sources.take(k)) <= files_in_sources(sources),
        k < sources.len() ==> files_in_sources(sources.take(k + 1)) == files_in_sources(
            sources.take(k),
        ) + files_in_groups(sources[k]),
    decreases sources.len() - k,
{
    if k < sources.len() {
        assert(sources.take(k + 1).drop_last() =~= sources.take(k));
        lemma_files_in_sources_take(sources, k + 1);
    } else {
        assert(sources.take(k) =~= sources);
    }
}

pub(crate) proof fn lemma_plan_groups_error_stays(
    state: (Map<Seq<char>, FileView>, PlanView),
    groups: Seq<Seq<FileView>>,
    layouts: Seq<(Seq<char>, Seq<char>)>,
    cutoff: Option<int>,
    suffix_placeholder: bool,
    k: int,
    m: int,
)
    requires
        k <= m,
        plan_groups_upto(state, groups, layouts, cutoff, suffix_placeholder, k) is Err,
    ensures
        plan_groups_upto(state, groups, layouts, cutoff, suffix_placeholder, m) == plan_groups_upto(
            state,
            groups,
            layouts,
            cutoff,
            suffix_placeholder,
            k,
        ),
    decreases m - k,
{
    if k < m {
        lemma_plan_groups_error_stays(state, groups, layouts, cutoff, suffix_placeholder, k, m - 1);
    }
}

pub(crate) proof fn lemma_plan_sources_error_stays(
    state: (Map<Seq<char>, FileView>, PlanView),
    sources: Seq<Seq<Seq<FileView>>>,
    layouts: Seq<Seq<(Seq<char>, Seq<char>)>>,
    suffix_placeholder: bool,
    k: int,
    m: int,
)
    requires
        k <= m,
        plan_sources_upto(state, sources, layouts, suffix_placeholder, k) is Err,
    ensures
        plan_sources_upto(state, sources, layouts, suffix_placeholder, m) == plan_sources_upto(
            state,
            sources,
            layouts,
            suffix_placeholder,
            k,
        ),
    decreases m - k,
{
    if k < m {
        lemma_plan_sources_error_stays(state, sources, layouts, suffix_placeholder, k, m - 1);
    }
}

impl Destination {
    /// Plans the moves of one group: each file whose target path is not taken yet is
    /// recorded there and planned, in order.
    fn add_group_moves(
        plan: &mut Plan,
        existing: &mut PathMap<FileInfo>,
        moves: &Vec<(String, &FileInfo)>,
        Ghost(targets): Ghost<Seq<(Seq<char>, FileView)>>,
    )
        requires
            old(plan).wf(),
            old(existing).wf(),
            targets.len() == moves@.len(),
            forall|i: int|
                0 <= i < moves@.len() ==> (#[trigger] moves@[i]).0@ == targets[i].0 && moves@[i].1@
                    == targets[i].1,
            old(plan)@.count() + moves@.len() <= usize::MAX,
        ensures
            final(plan).wf(),
            final(existing).wf(),
            final(plan)@.count() <= old(plan)@.count() + moves@.len(),
            (file_views(final(existing)@), final(plan)@) == add_targets(
                (file_views(old(existing)@), old(plan)@),
                targets,
                moves@.len() as int,
            ),
    {
        let ghost start = (file_views(existing@), plan@);
        let ghost start_count = plan@.count();
        let mut i: usize = 0;
        while i < moves.len()
            invariant
                i <= moves@.len(),
                plan.wf(),
                existing.wf(),
                targets.len() == moves@.len(),
                forall|j: int|
                    0 <= j < moves@.len() ==> (#[trigger] moves@[j]).0@ == targets[j].0 && moves@[j].1@
                        == targets[j].1,
                start_count + moves@.len() <= usize::MAX,
                plan@.count() <= start_count + i,
                (file_views(existing@), plan@) == add_targets(start, targets, i as int),
            decreases moves.len() - i,
        {
            let dest = &moves[i].0;
            let file = moves[i].1;
            assert(moves@[i as int].0@ == targets[i as int].0);
            if !existing.contains_key(dest.as_str()) {
                proof {
                    lemma_file_views_insert(existing@, dest@, *file);
                    plan.lemma_wf();
                    lemma_after_move_count(plan@, file@, dest@);
                }
                existing.insert(dest.clone(), file.clone());
                plan.add_move(file, dest.as_str());
            }
            i = i + 1;
        }
    }
}

/// The optional time as an integer.
pub open spec fn time_view(t: Option<i64>) -> Option<int> {
    match t {
        Some(x) => Some(x as int),
        None => None,
    }
}

/// The views of the groups of each source.
pub open spec fn sources_view(sources: Seq<Vec<FileGroup>>) -> Seq<Seq<Seq<FileView>>> {
    sources.map_values(|v: Vec<FileGroup>| groups_view(v@))
}

/// The views of the layouts of each source.
pub open spec fn source_layouts_view(layouts: Seq<Vec<GroupLayout>>) -> Seq<Seq<(Seq<char>, Seq<char>)>> {
    layouts.map_values(|v: Vec<GroupLayout>| layouts_view(v@))
}

/// Every source has a layout for each of its groups, and every group has files.
pub open spec fn layouts_fit(sources: Seq<Vec<FileGroup>>, layouts: Seq<Vec<GroupLayout>>) -> bool {
    &&& sources.len() == layouts.len()
    &&& forall|i: int|
        0 <= i < sources.len() ==> (#[trigger] sources[i])@.len() == layouts[i]@.len()
            && groups_nonempty(sources[i]@)
}

impl Destination {
    /// Plans one group of a source, as `plan_group` says.
    fn plan_group_in(
        &self,
        plan: &mut Plan,
        existing: &mut PathMap<FileInfo>,
        group: &FileGroup,
        layout: &GroupLayout,
        cutoff: Option<i64>,
        suffix_placeholder: bool,
    ) -> (res: Result<(), PlanError>)
        requires
            old(plan).wf(),
            old(existing).wf(),
            group.files@.len() > 0,
            old(plan)@.count() + group@.len() <= usize::MAX,
        ensures
            final(plan).wf(),
            final(existing).wf(),
            final(plan)@.count() <= old(plan)@.count() + group@.len(),
            res != Err::<(), PlanError>(PlanError::TimeFormat),
            match res {
                Ok(()) => plan_group(
                    (file_views(old(existing)@), old(plan)@),
                    group@,
                    layout@,
                    time_view(cutoff),
                    suffix_placeholder,
                ) == Ok::<(Map<Seq<char>, FileView>, PlanView), PlanError>(
                    (file_views(final(existing)@), final(plan)@),
                ),
                Err(e) => plan_group(
                    (file_views(old(existing)@), old(plan)@),
                    group@,
                    layout@,
                    time_view(cutoff),
                    suffix_placeholder,
                ) == Err::<(Map<Seq<char>, FileView>, PlanView), PlanError>(e),
            },
    {
        if let Some(c) = cutoff {
            if group.get_ts() <= c {
                return Ok(());
            }
        }
        let suffix = match group.get_unique_suffix_in(layout, existing, suffix_placeholder) {
            Ok(s) => s,
            Err(e) => return Err(e),
        };
        let moves = group.moves_in(layout, suffix);
        let ghost targets = group_targets(group@, layout.dir@, layout.file_format@, suffix as int);
        assert forall|i: int| 0 <= i < moves@.len() implies (#[trigger] moves@[i]).0@ == targets[i].0
            && moves@[i].1@ == targets[i].1 by {
            assert(moves@[i].0@ == target_path(
                layout.dir@,
                layout.file_format@,
                group.files@[i]@,
                suffix as nat,
            ));
        }
        Self::add_group_moves(plan, existing, &moves, Ghost(targets));
        Ok(())
    }

    /// Plans the groups of one source, as `plan_source` says.
    fn plan_source_in(
        &self,
        plan: &mut Plan,
        existing: &mut PathMap<FileInfo>,
        groups: &Vec<FileGroup>,
        layouts: &Vec<GroupLayout>,
        suffix_placeholder: bool,
    ) -> (res: Result<(), PlanError>)
        requires
            old(plan).wf(),
            old(existing).wf(),
            groups@.len() == layouts@.len(),
            groups_nonempty(groups@),
            old(plan)@.count() + files_in_groups(groups_view(groups@)) <= usize::MAX,
        ensures
            final(plan).wf(),
            final(existing).wf(),
            final(plan)@.count() <= old(plan)@.count() + files_in_groups(groups_view(groups@)),
            res != Err::<(), PlanError>(PlanError::TimeFormat),
            match res {
                Ok(()) => plan_source(
                    (file_views(old(existing)@), old(plan)@),
                    groups_view(groups@),
                    layouts_view(layouts@),
                    suffix_placeholder,
                ) == Ok::<(Map<Seq<char>, FileView>, PlanView), PlanError>(
                    (file_views(final(existing)@), final(plan)@),
                ),
                Err(e) => plan_source(
                    (file_views(old(existing)@), old(plan)@),
                    groups_view(groups@),
                    layouts_view(layouts@),
                    suffix_placeholder,
                ) == Err::<(Map<Seq<char>, FileView>, PlanView), PlanError>(e),
            },
    {
        let ghost gv = groups_view(groups@);
        let ghost lv = layouts_view(layouts@);
        let ghost start = (file_views(existing@), plan@);
        let ghost start_count = plan@.count();
        let cutoff = match self.find_source_cutoff_in(groups.as_slice(), layouts.as_slice(), existing, suffix_placeholder) {
            Ok(c) => c,
            Err(e) => return Err(e),
        };
        assert(cutoff_upto(gv, lv, start.0, suffix_placeholder, gv.len() as int) == Ok::<
            Option<int>,
            PlanError,
        >(time_view(cutoff)));
        let mut i: usize = 0;
        proof {
            lemma_files_in_groups_take(gv, 0);
        }
        while i < groups.len()
            invariant
                i <= groups@.len(),
                groups@.len() == layouts@.len(),
                groups_nonempty(groups@),
                gv == groups_view(groups@),
                lv == layouts_view(layouts@),
                plan.wf(),
                existing.wf(),
                start_count + files_in_groups(gv) <= usize::MAX,
                start_count == old(plan)@.count(),
                start == (file_views(old(existing)@), old(plan)@),
                cutoff_upto(gv, lv, start.0, suffix_placeholder, gv.len() as int) == Ok::<
                    Option<int>,
                    PlanError,
                >(time_view(cutoff)),
                plan@.count() <= start_count + files_in_groups(gv.take(i as int)),
                plan_groups_upto(start, gv, lv, time_view(cutoff), suffix_placeholder, i as int)
                    == Ok::<(Map<Seq<char>, FileView>, PlanView), PlanError>(
                    (file_views(existing@), plan@),
                ),
            decreases groups.len() - i,
        {
            proof {
                lemma_files_in_groups_take(gv, i as int);
                lemma_files_in_groups_take(gv, i + 1);
            }
            assert(groups@[i as int].files@.len() > 0);
            assert(gv[i as int] == groups@[i as int]@);
            assert(lv[i as int] == layouts@[i as int]@);
            let ghost before = (file_views(existing@), plan@);
            match self.plan_group_in(plan, existing, &groups[i], &layouts[i], cutoff, suffix_placeholder) {
                Ok(()) => {},
                Err(e) => {
                    proof {
                        assert(plan_groups_upto(start, gv, lv, time_view(cutoff), suffix_placeholder, i + 1)
                            == plan_group(before, gv[i as int], lv[i as int], time_view(cutoff), suffix_placeholder));
                        lemma_plan_groups_error_stays(
                            start,
                            gv,
                            lv,
                            time_view(cutoff),
                            suffix_placeholder,
                            i + 1,
                            gv.len() as int,
                        );
                        lemma_files_in_groups_take(gv, i + 1);
                    }
                    return Err(e);
                },
            }
            i = i + 1;
        }
        proof {
            assert(gv.take(i as int) =~= gv);
        }
        Ok(())
    }

    /// Plans the copies of every source, in order, with the given layouts of their groups,
    /// as `plan_sources_upto` says for all sources. Each source's cutoff is worked out from
    /// the existing files before it; within a source, each group later than the cutoff gets
    /// the suffix that keeps it from overwriting different files, and each of its files whose
    /// target path is not taken yet is recorded at that path and planned.
    pub fn plan_moves_in(
        &self,
        plan: &mut Plan,
        source_groups: &[Vec<FileGroup>],
        layouts: &[Vec<GroupLayout>],
        existing: &mut PathMap<FileInfo>,
        suffix_placeholder: bool,
    ) -> (res: Result<(), PlanError>)
        requires
            old(plan).wf(),
            old(existing).wf(),
            layouts_fit(source_groups@, layouts@),
            old(plan)@.count() + files_in_sources(sources_view(source_groups@)) <= usize::MAX,
        ensures
            final(plan).wf(),
            final(existing).wf(),
            res != Err::<(), PlanError>(PlanError::TimeFormat),
            match res {
                Ok(()) => plan_sources_upto(
                    (file_views(old(existing)@), old(plan)@),
                    sources_view(source_groups@),
                    source_layouts_view(layouts@),
                    suffix_placeholder,
                    source_groups@.len() as int,
                ) == Ok::<(Map<Seq<char>, FileView>, PlanView), PlanError>(
                    (file_views(final(existing)@), final(plan)@),
                ),
                Err(e) => plan_sources_upto(
                    (file_views(old(existing)@), old(plan)@),
                    sources_view(source_groups@),
                    source_layouts_view(layouts@),
                    suffix_placeholder,
                    source_groups@.len() as int,
                ) == Err::<(Map<Seq<char>, FileView>, PlanView), PlanError>(e),
            },
    {
        let ghost sv = sources_view(source_groups@);
        let ghost lv = source_layouts_view(layouts@);
        let ghost start = (file_views(existing@), plan@);
        let ghost start_count = plan@.count();
        let mut i: usize = 0;
        proof {
            lemma_files_in_sources_take(sv, 0);
        }
        while i < source_groups.len()
            invariant
                i <= source_groups@.len(),
                layouts_fit(source_groups@, layouts@),
                sv == sources_view(source_groups@),
                lv == source_layouts_view(layouts@),
                plan.wf(),
                existing.wf(),
                start_count + files_in_sources(sv) <= usize::MAX,
                start_count == old(plan)@.count(),
                start == (file_views(old(existing)@), old(plan)@),
                plan@.count() <= start_count + files_in_sources(sv.take(i as int)),
                plan_sources_upto(start, sv, lv, suffix_placeholder, i as int) == Ok::<
                    (Map<Seq<char>, FileView>, PlanView),
                    PlanError,
                >((file_views(existing@), plan@)),
            decreases source_groups.len() - i,
        {
            proof {
                lemma_files_in_sources_take(sv, i as int);
                lemma_files_in_sources_take(sv, i + 1);
            }
            assert(source_groups@[i as int]@.len() == layouts@[i as int]@.len());
            assert(sv[i as int] == groups_view(source_groups@[i as int]@));
            assert(lv[i as int] == layouts_view(layouts@[i as int]@));
            let ghost before = (file_views(existing@), plan@);
            match self.plan_source_in(plan, existing, &source_groups[i], &layouts[i], suffix_placeholder) {
                Ok(()) => {},
                Err(e) => {
                    proof {
                        assert(plan_sources_upto(start, sv, lv, suffix_placeholder, i + 1) == plan_source(
                            before,
                            sv[i as int],
                            lv[i as int],
                            suffix_placeholder,
                        ));
                        lemma_plan_sources_error_stays(
                            start,
                            sv,
                            lv,
                            suffix_placeholder,
                            i + 1,
                            sv.len() as int,
                        );
                    }
                    return Err(e);
                },
            }
            i = i + 1;
        }
        Ok(())
    }
}

/// Each layout is what the date patterns give its group, as `is_layout_of` says.
pub open spec fn group_layouts_of(
    dir_pattern: Seq<char>,
    file_pattern: Seq<char>,
    groups: Seq<Seq<FileView>>,
    layouts: Seq<(Seq<char>, Seq<char>)>,
) -> bool {
    &&& layouts.len() == groups.len()
    &&& forall|j: int|
        0 <= j < groups.len() ==> is_layout_of(dir_pattern, file_pattern, groups[j], #[trigger] layouts[j])
}

/// Each source's layouts are what the date patterns give its groups.
pub open spec fn layouts_of(
    dir_pattern: Seq<char>,
    file_pattern: Seq<char>,
    sources: Seq<Seq<Seq<FileView>>>,
    layouts: Seq<Seq<(Seq<char>, Seq<char>)>>,
) -> bool {
    &&& layouts.len() == sources.len()
    &&& forall|i: int|
        0 <= i < sources.len() ==> group_layouts_of(dir_pattern, file_pattern, sources[i], #[trigger] layouts[i])
}

/// Some source has a group.
pub open spec fn has_groups(sources: Seq<Vec<FileGroup>>) -> bool {
    exists|i: int| 0 <= i < sources.len() && (#[trigger] sources[i])@.len() > 0
}

/// Planning the sources with the layouts the date patterns give their groups (at the local
/// UTC offsets) has `outcome`.
pub open spec fn planned_at_local_layouts(
    state: (Map<Seq<char>, FileView>, PlanView),
    dir_pattern: Seq<char>,
    file_pattern: Seq<char>,
    sources: Seq<Seq<Seq<FileView>>>,
    outcome: Result<(Map<Seq<char>, FileView>, PlanView), PlanError>,
) -> bool {
    exists|layouts: Seq<Seq<(Seq<char>, Seq<char>)>>|
        layouts_of(dir_pattern, file_pattern, sources, layouts) && #[trigger] plan_sources_upto(
            state,
            sources,
            layouts,
            has_suffix_placeholder(file_pattern),
            sources.len() as int,
        ) == outcome
}

impl Destination {
    /// Whether the file pattern holds `{suffix}`.
    pub fn takes_suffix(&self) -> (res: bool)
        ensures
            res == has_suffix_placeholder(self.file_pattern@),
    {
        let placeholder_chars: Vec<char> = vec!['{', 's', 'u', 'f', 'f', 'i', 'x', '}'];
        assert(placeholder_chars@ =~= placeholder(seq!['s', 'u', 'f', 'f', 'i', 'x']));
        contains_str(&chars_of(self.file_pattern.as_str()), &placeholder_chars)
    }

    /// The layouts this destination gives a list of groups, in order, as `layout` says.
    fn group_layouts(&self, groups: &[FileGroup]) -> (res: Result<Vec<GroupLayout>, PlanError>)
        requires
            groups_nonempty(groups@),
        ensures
            res is Ok <==> groups@.len() == 0 || patterns_readable(self.dir_pattern@, self.file_pattern@),
            res matches Ok(ls) ==> group_layouts_of(
                self.dir_pattern@,
                self.file_pattern@,
                groups_view(groups@),
                layouts_view(ls@),
            ),
            res matches Err(e) ==> e == PlanError::TimeFormat,
    {
        let mut layouts: Vec<GroupLayout> = Vec::new();
        let mut j: usize = 0;
        while j < groups.len()
            invariant
                j <= groups@.len(),
                groups_nonempty(groups@),
                layouts@.len() == j,
                j > 0 ==> patterns_readable(self.dir_pattern@, self.file_pattern@),
                forall|k: int| 0 <= k < j ==> is_layout_of(
                    self.dir_pattern@,
                    self.file_pattern@,
                    groups@[k]@,
                    (#[trigger] layouts@[k])@,
                ),
            decreases groups.len() - j,
        {
            assert(groups@[j as int].files@.len() > 0);
            let layout = match self.layout(&groups[j]) {
                Ok(l) => l,
                Err(e) => return Err(e),
            };
            proof {
                let o = layout.offset as int;
                assert(layout@ == layout_at(self.dir_pattern@, self.file_pattern@, groups@[j as int]@, o));
            }
            layouts.push(layout);
            j = j + 1;
        }
        proof {
            let gv = groups_view(groups@);
            let lv = layouts_view(layouts@);
            assert forall|k: int| 0 <= k < gv.len() implies is_layout_of(
                self.dir_pattern@,
                self.file_pattern@,
                gv[k],
                #[trigger] lv[k],
            ) by {
                assert(is_layout_of(self.dir_pattern@, self.file_pattern@, groups@[k]@, layouts@[k]@));
            }
        }
        Ok(layouts)
    }

    /// The layouts this destination gives the groups of each source, as `layout` says.
    pub fn layouts_for(&self, source_groups: &[Vec<FileGroup>]) -> (res: Result<
        Vec<Vec<GroupLayout>>,
        PlanError,
    >)
        requires
            forall|i: int| 0 <= i < source_groups@.len() ==> groups_nonempty(#[trigger] source_groups@[i]@),
        ensures
            res is Ok <==> !has_groups(source_groups@) || patterns_readable(
                self.dir_pattern@,
                self.file_pattern@,
            ),
            res matches Ok(ls) ==> layouts_fit(source_groups@, ls@) && layouts_of(
                self.dir_pattern@,
                self.file_pattern@,
                sources_view(source_groups@),
                source_layouts_view(ls@),
            ),
            res matches Err(e) ==> e == PlanError::TimeFormat,
    {
        let ghost dp = self.dir_pattern@;
        let ghost fp = self.file_pattern@;
        let mut all: Vec<Vec<GroupLayout>> = Vec::new();
        let mut i: usize = 0;
        while i < source_groups.len()
            invariant
                i <= source_groups@.len(),
                dp == self.dir_pattern@,
                fp == self.file_pattern@,
                forall|k: int| 0 <= k < source_groups@.len() ==> groups_nonempty(#[trigger] source_groups@[k]@),
                all@.len() == i,
                forall|k: int|
                    0 <= k < i ==> (#[trigger] source_groups@[k])@.len() == all@[k]@.len(),
                forall|k: int|
                    0 <= k < i ==> group_layouts_of(
                        dp,
                        fp,
                        groups_view(source_groups@[k]@),
                        layouts_view((#[trigger] all@[k])@),
                    ),
                (exists|k: int| 0 <= k < i && (#[trigger] source_groups@[k])@.len() > 0) ==> patterns_readable(dp, fp),
            decreases source_groups.len() - i,
        {
            let layouts = match self.group_layouts(source_groups[i].as_slice()) {
                Ok(ls) => ls,
                Err(e) => {
                    assert(source_groups@[i as int]@.len() > 0);
                    return Err(e);
                },
            };
            all.push(layouts);
            proof {
                assert forall|k: int| 0 <= k < i + 1 implies (#[trigger] source_groups@[k])@.len() == all@[k]@.len() by {
                    if k == i {
                        assert(layouts_view(all@[k]@).len() == all@[k]@.len());
                    }
                }
            }
            i = i + 1;
        }
        proof {
            let sv = sources_view(source_groups@);
            let lv = source_layouts_view(all@);
            assert forall|k: int| 0 <= k < sv.len() implies group_layouts_of(dp, fp, sv[k], #[trigger] lv[k]) by {
                assert(group_layouts_of(dp, fp, groups_view(source_groups@[k]@), layouts_view(all@[k]@)));
            }
            assert(layouts_fit(source_groups@, all@));
        }
        Ok(all)
    }

    /// Plans the copies of every source, in order, to this destination, as
    /// `plan_sources_upto` says for the layouts this destination gives the groups: both date
    /// patterns filled in with each group's earliest time at the local UTC offset, as
    /// `layout_at` says. A date pattern chrono cannot read stops planning before anything
    /// changes.
    pub fn plan_moves(
        &self,
        plan: &mut Plan,
        source_groups: &[Vec<FileGroup>],
        existing: &mut PathMap<FileInfo>,
    ) -> (res: Result<(), PlanError>)
        requires
            old(plan).wf(),
            old(existing).wf(),
            forall|i: int| 0 <= i < source_groups@.len() ==> groups_nonempty(#[trigger] source_groups@[i]@),
            old(plan)@.count() + files_in_sources(sources_view(source_groups@)) <= usize::MAX,
        ensures
            final(plan).wf(),
            final(existing).wf(),
            res == Err::<(), PlanError>(PlanError::TimeFormat) <==> has_groups(source_groups@)
                && !patterns_readable(self.dir_pattern@, self.file_pattern@),
            res == Err::<(), PlanError>(PlanError::TimeFormat) ==> final(plan)@ == old(plan)@
                && final(existing)@ == old(existing)@,
            res != Err::<(), PlanError>(PlanError::TimeFormat) ==> planned_at_local_layouts(
                (file_views(old(existing)@), old(plan)@),
                self.dir_pattern@,
                self.file_pattern@,
                sources_view(source_groups@),
                match res {
                    Ok(()) => Ok((file_views(final(existing)@), final(plan)@)),
                    Err(e) => Err(e),
                },
            ),
    {
        let layouts = match self.layouts_for(source_groups) {
            Ok(ls) => ls,
            Err(e) => return Err(e),
        };
        let has = self.takes_suffix();
        let ghost lv = source_layouts_view(layouts@);
        let ghost start = (file_views(existing@), plan@);
        let res = self.plan_moves_in(plan, source_groups, layouts.as_slice(), existing, has);
        proof {
            let outcome = plan_sources_upto(
                start,
                sources_view(source_groups@),
                lv,
                has,
                source_groups@.len() as int,
            );
            let fin: Result<(Map<Seq<char>, FileView>, PlanView), PlanError> = match res {
                Ok(()) => Ok((file_views(existing@), plan@)),
                Err(e) => Err(e),
            };
            assert(outcome == fin);
            assert(planned_at_local_layouts(start, self.dir_pattern@, self.file_pattern@, sources_view(source_groups@), fin));
        }
        res
    }
}

impl Destination {
    /// The cutoff time of a source at this destination: as `cutoff_upto` says for the
    /// layouts this destination gives the groups, as `layout_at` says at the local UTC
    /// offset.
    pub fn find_source_cutoff(&self, groups: &[FileGroup], existing: &PathMap<FileInfo>) -> (res: Result<
        Option<i64>,
        PlanError,
    >)
        requires
            existing.wf(),
            groups_nonempty(groups@),
        ensures
            res == Err::<Option<i64>, PlanError>(PlanError::TimeFormat) <==> groups@.len() > 0
                && !patterns_readable(self.dir_pattern@, self.file_pattern@),
            res != Err::<Option<i64>, PlanError>(PlanError::TimeFormat) ==> exists|
                layouts: Seq<(Seq<char>, Seq<char>)>,
            |
                group_layouts_of(self.dir_pattern@, self.file_pattern@, groups_view(groups@), layouts)
                    && #[trigger] cutoff_upto(
                    groups_view(groups@),
                    layouts,
                    file_views(existing@),
                    has_suffix_placeholder(self.file_pattern@),
                    groups@.len() as int,
                ) == match res {
                    Ok(c) => Ok::<Option<int>, PlanError>(time_view(c)),
                    Err(e) => Err::<Option<int>, PlanError>(e),
                },
    {
        let layouts = match self.group_layouts(groups) {
            Ok(ls) => ls,
            Err(e) => return Err(e),
        };
        let has = self.takes_suffix();
        let res = self.find_source_cutoff_in(groups, layouts.as_slice(), existing, has);
        proof {
            let lv = layouts_view(layouts@);
            assert(cutoff_upto(
                groups_view(groups@),
                lv,
                file_views(existing@),
                has_suffix_placeholder(self.file_pattern@),
                groups@.len() as int,
            ) == match res {
                Ok(c) => Ok::<Option<int>, PlanError>(time_view(c)),
                Err(e) => Err::<Option<int>, PlanError>(e),
            });
        }
        res
    }
}

} // verus!
