//! What planning promises as a whole: it never replaces a file that exists, and copying
//! from the first destination changes neither where files land nor which files land there.
use vstd::prelude::*;

use crate::clock::{offset_ok, strftime_at};
use crate::files::{
    all_named, file_key, file_prefix, group_key, is_dir_of, is_grouping, keys_of, layout_at,
    lemma_min_modified, min_modified, same_content, target_path, with_key, FileGroup, FileInfo,
    FileView,
};
use crate::paths::path_file_name;
use crate::plan::{first_dest_of, has_first};
use crate::planning::is_first_free;
use crate::text::{is_first_index, lemma_first_index};
use crate::planning::{
    add_targets, conflict_at, cutoff_upto, group_targets, plan_group, plan_groups_upto, plan_source,
    plan_sources_upto, suffix_outcome,
};
use crate::plan::{
    lemma_after_move_consistent, lemma_after_move_destinations, lemma_agree_after_move,
    plans_agree, PlanView,
};

verus! {

/// From `s0` to `s1`, every existing file stays as it was, and every path that newly
/// receives a copy is a path where no file existed, now recorded as taken.
pub open spec fn keeps_existing(
    s0: (Map<Seq<char>, FileView>, PlanView),
    s1: (Map<Seq<char>, FileView>, PlanView),
) -> bool {
    &&& forall|d: Seq<char>| #[trigger] s0.0.dom().contains(d) ==> s1.0.dom().contains(d) && s1.0[d] == s0.0[d]
    &&& forall|d: Seq<char>|
        #[trigger] s1.1.destinations().contains(d) && !s0.1.destinations().contains(d) ==> s1.0.dom().contains(d)
            && !s0.0.dom().contains(d)
}

pub(crate) proof fn lemma_keeps_existing_trans(
    s0: (Map<Seq<char>, FileView>, PlanView),
    s1: (Map<Seq<char>, FileView>, PlanView),
    s2: (Map<Seq<char>, FileView>, PlanView),
)
    requires
        keeps_existing(s0, s1),
        keeps_existing(s1, s2),
    ensures
        keeps_existing(s0, s2),
{
    assert forall|d: Seq<char>| #[trigger] s2.1.destinations().contains(d) && !s0.1.destinations().contains(d)
        implies s2.0.dom().contains(d) && !s0.0.dom().contains(d) by {
        if s1.1.destinations().contains(d) {
            assert(s1.0.dom().contains(d) && !s0.0.dom().contains(d));
        } else {
            assert(s2.0.dom().contains(d) && !s1.0.dom().contains(d));
        }
    }
}

pub(crate) proof fn lemma_add_targets_keeps(
    s: (Map<Seq<char>, FileView>, PlanView),
    targets: Seq<(Seq<char>, FileView)>,
    k: int,
)
    ensures
        keeps_existing(s, add_targets(s, targets, k)),
    decreases k,
{
    if k > 0 {
        lemma_add_targets_keeps(s, targets, k - 1);
        let prev = add_targets(s, targets, k - 1);
        let (dest, file) = targets[k - 1];
        if !prev.0.dom().contains(dest) {
            lemma_after_move_destinations(prev.1, file, dest);
            let next = add_targets(s, targets, k);
            assert(keeps_existing(prev, next));
            lemma_keeps_existing_trans(s, prev, next);
        } else {
            assert(add_targets(s, targets, k) == prev);
        }
    } else {
        assert(add_targets(s, targets, k) == s);
    }
}

pub(crate) proof fn lemma_plan_groups_keeps(
    s: (Map<Seq<char>, FileView>, PlanView),
    groups: Seq<Seq<FileView>>,
    layouts: Seq<(Seq<char>, Seq<char>)>,
    cutoff: Option<int>,
    suffix_placeholder: bool,
    k: int,
)
    ensures
        plan_groups_upto(s, groups, layouts, cutoff, suffix_placeholder, k) matches Ok(s1) ==> keeps_existing(s, s1),
    decreases k,
{
    if k > 0 {
        lemma_plan_groups_keeps(s, groups, layouts, cutoff, suffix_placeholder, k - 1);
        if let Ok(prev) = plan_groups_upto(s, groups, layouts, cutoff, suffix_placeholder, k - 1) {
            let g = groups[k - 1];
            let l = layouts[k - 1];
            if !(cutoff matches Some(c) && crate::files::min_modified(g) <= c) {
                if let Ok(sfx) = suffix_outcome(g, l.0, l.1, prev.0, suffix_placeholder) {
                    lemma_add_targets_keeps(prev, group_targets(g, l.0, l.1, sfx as int), g.len() as int);
                    lemma_keeps_existing_trans(s, prev, add_targets(prev, group_targets(g, l.0, l.1, sfx as int), g.len() as int));
                }
            }
        }
    }
}

/// Planning never replaces a file: every file recorded as existing stays recorded as it
/// was, and every path that newly receives a copy is one where no file existed before
/// planning, and is recorded as taken after it.
pub proof fn lemma_planning_keeps_existing(
    s: (Map<Seq<char>, FileView>, PlanView),
    sources: Seq<Seq<Seq<FileView>>>,
    layouts: Seq<Seq<(Seq<char>, Seq<char>)>>,
    suffix_placeholder: bool,
    k: int,
)
    ensures
        plan_sources_upto(s, sources, layouts, suffix_placeholder, k) matches Ok(s1) ==> keeps_existing(s, s1),
    decreases k,
{
    if k > 0 {
        lemma_planning_keeps_existing(s, sources, layouts, suffix_placeholder, k - 1);
        if let Ok(prev) = plan_sources_upto(s, sources, layouts, suffix_placeholder, k - 1) {
            let g = sources[k - 1];
            let l = layouts[k - 1];
            if let Ok(c) = cutoff_upto(g, l, prev.0, suffix_placeholder, g.len() as int) {
                lemma_plan_groups_keeps(prev, g, l, c, suffix_placeholder, g.len() as int);
                if let Ok(next) = plan_groups_upto(prev, g, l, c, suffix_placeholder, g.len() as int) {
                    lemma_keeps_existing_trans(s, prev, next);
                }
            }
        }
    }
}

/// The plans of two runs, one copying directly and one copying from the first destination,
/// are consistent, agree, and send copies only to paths recorded as taken.
pub open spec fn runs_agree(
    e: Map<Seq<char>, FileView>,
    p: PlanView,
    q: PlanView,
) -> bool {
    &&& p.consistent()
    &&& q.consistent()
    &&& plans_agree(p, q)
    &&& p.destinations().subset_of(e.dom())
    &&& q.destinations().subset_of(e.dom())
}

proof fn lemma_add_targets_agree(
    e: Map<Seq<char>, FileView>,
    p: PlanView,
    q: PlanView,
    targets: Seq<(Seq<char>, FileView)>,
    k: int,
)
    requires
        runs_agree(e, p, q),
    ensures
        add_targets((e, p), targets, k).0 == add_targets((e, q), targets, k).0,
        runs_agree(add_targets((e, p), targets, k).0, add_targets((e, p), targets, k).1, add_targets((e, q), targets, k).1),
    decreases k,
{
    if k > 0 {
        lemma_add_targets_agree(e, p, q, targets, k - 1);
        let a = add_targets((e, p), targets, k - 1);
        let b = add_targets((e, q), targets, k - 1);
        let (dest, file) = targets[k - 1];
        if !a.0.dom().contains(dest) {
            lemma_after_move_consistent(a.1, file, dest);
            lemma_after_move_consistent(b.1, file, dest);
            lemma_after_move_destinations(a.1, file, dest);
            lemma_after_move_destinations(b.1, file, dest);
            lemma_agree_after_move(a.1, b.1, file, dest);
            let e2 = a.0.insert(dest, file);
            assert(a.1.after_move(file, dest).destinations().subset_of(e2.dom()));
            assert(b.1.after_move(file, dest).destinations().subset_of(e2.dom()));
        }
    }
}

proof fn lemma_plan_groups_agree(
    e: Map<Seq<char>, FileView>,
    p: PlanView,
    q: PlanView,
    groups: Seq<Seq<FileView>>,
    layouts: Seq<(Seq<char>, Seq<char>)>,
    cutoff: Option<int>,
    suffix_placeholder: bool,
    k: int,
)
    requires
        runs_agree(e, p, q),
    ensures
        match (
            plan_groups_upto((e, p), groups, layouts, cutoff, suffix_placeholder, k),
            plan_groups_upto((e, q), groups, layouts, cutoff, suffix_placeholder, k),
        ) {
            (Ok(a), Ok(b)) => a.0 == b.0 && runs_agree(a.0, a.1, b.1),
            (Err(x), Err(y)) => x == y,
            _ => false,
        },
    decreases k,
{
    if k > 0 {
        lemma_plan_groups_agree(e, p, q, groups, layouts, cutoff, suffix_placeholder, k - 1);
        let ra = plan_groups_upto((e, p), groups, layouts, cutoff, suffix_placeholder, k - 1);
        let rb = plan_groups_upto((e, q), groups, layouts, cutoff, suffix_placeholder, k - 1);
        if let (Ok(a), Ok(b)) = (ra, rb) {
            let g = groups[k - 1];
            let l = layouts[k - 1];
            assert(plan_groups_upto((e, p), groups, layouts, cutoff, suffix_placeholder, k) == plan_group(a, g, l, cutoff, suffix_placeholder));
            assert(plan_groups_upto((e, q), groups, layouts, cutoff, suffix_placeholder, k) == plan_group(b, g, l, cutoff, suffix_placeholder));
            if !(cutoff matches Some(c) && crate::files::min_modified(g) <= c) {
                if let Ok(sfx) = suffix_outcome(g, l.0, l.1, a.0, suffix_placeholder) {
                    lemma_add_targets_agree(a.0, a.1, b.1, group_targets(g, l.0, l.1, sfx as int), g.len() as int);
                }
            }
        }
    }
}

/// Copying from the first destination or directly does not change the outcome of planning:
/// started from the same existing files with plans that agree (as two new plans do), both
/// runs fail the same way, or both record the same existing files and plan copies to the
/// same paths with the same file landing at each.
pub proof fn lemma_first_copies_same_plan(
    e: Map<Seq<char>, FileView>,
    p: PlanView,
    q: PlanView,
    sources: Seq<Seq<Seq<FileView>>>,
    layouts: Seq<Seq<(Seq<char>, Seq<char>)>>,
    suffix_placeholder: bool,
    k: int,
)
    requires
        runs_agree(e, p, q),
    ensures
        match (
            plan_sources_upto((e, p), sources, layouts, suffix_placeholder, k),
            plan_sources_upto((e, q), sources, layouts, suffix_placeholder, k),
        ) {
            (Ok(a), Ok(b)) => a.0 == b.0 && plans_agree(a.1, b.1),
            (Err(x), Err(y)) => x == y,
            _ => false,
        },
{
    lemma_sources_agree(e, p, q, sources, layouts, suffix_placeholder, k);
}

proof fn lemma_sources_agree(
    e: Map<Seq<char>, FileView>,
    p: PlanView,
    q: PlanView,
    sources: Seq<Seq<Seq<FileView>>>,
    layouts: Seq<Seq<(Seq<char>, Seq<char>)>>,
    suffix_placeholder: bool,
    k: int,
)
    requires
        runs_agree(e, p, q),
    ensures
        match (
            plan_sources_upto((e, p), sources, layouts, suffix_placeholder, k),
            plan_sources_upto((e, q), sources, layouts, suffix_placeholder, k),
        ) {
            (Ok(a), Ok(b)) => a.0 == b.0 && runs_agree(a.0, a.1, b.1),
            (Err(x), Err(y)) => x == y,
            _ => false,
        },
    decreases k,
{
    if k > 0 {
        lemma_sources_agree(e, p, q, sources, layouts, suffix_placeholder, k - 1);
        let ra = plan_sources_upto((e, p), sources, layouts, suffix_placeholder, k - 1);
        let rb = plan_sources_upto((e, q), sources, layouts, suffix_placeholder, k - 1);
        if let (Ok(a), Ok(b)) = (ra, rb) {
            let g = sources[k - 1];
            let l = layouts[k - 1];
            assert(plan_sources_upto((e, p), sources, layouts, suffix_placeholder, k) == plan_source(a, g, l, suffix_placeholder));
            assert(plan_sources_upto((e, q), sources, layouts, suffix_placeholder, k) == plan_source(b, g, l, suffix_placeholder));
            if let Ok(c) = cutoff_upto(g, l, a.0, suffix_placeholder, g.len() as int) {
                lemma_plan_groups_agree(a.0, a.1, b.1, g, l, c, suffix_placeholder, g.len() as int);
            }
        }
    }
}

/// A new plan that copies directly and a new plan that copies from the first destination
/// agree, over any existing files.
pub proof fn lemma_new_plans_agree(e: Map<Seq<char>, FileView>)
    ensures
        runs_agree(
            e,
            PlanView { use_first: false, moves: Map::empty(), first_moves: Seq::empty() },
            PlanView { use_first: true, moves: Map::empty(), first_moves: Seq::empty() },
        ),
{
    let p = PlanView { use_first: false, moves: Map::empty(), first_moves: Seq::empty() };
    let q = PlanView { use_first: true, moves: Map::empty(), first_moves: Seq::empty() };
    assert(p.destinations() =~= Set::empty());
    assert(q.destinations() =~= Set::empty());
    assert(p.moves.dom() =~= Set::empty());
}

/// The suffix a group gets keeps every file of the group from overwriting a different file,
/// and every smaller suffix would not.
pub proof fn lemma_suffix_avoids_conflicts(
    files: Seq<FileView>,
    dir: Seq<char>,
    file_format: Seq<char>,
    existing: Map<Seq<char>, FileView>,
    suffix_placeholder: bool,
)
    ensures
        suffix_outcome(files, dir, file_format, existing, suffix_placeholder) matches Ok(s) ==> {
            &&& !conflict_at(files, dir, file_format, existing, s as int)
            &&& forall|t: int| 0 <= t < s ==> conflict_at(files, dir, file_format, existing, t)
        },
{
    if conflict_at(files, dir, file_format, existing, 0) && suffix_placeholder {
        if exists|s: int| crate::planning::is_first_free(files, dir, file_format, existing, s) {
            let s = choose|s: int| crate::planning::is_first_free(files, dir, file_format, existing, s);
            assert(crate::planning::is_first_free(files, dir, file_format, existing, s));
        }
    }
}

/// Two files count as one file for copies read from the first destination exactly when
/// their modification times, names and extensions are all equal.
pub proof fn lemma_file_key_fields(a: FileView, b: FileView)
    ensures
        file_key(a) == file_key(b) <==> (a.modified == b.modified && a.format_args.name
            == b.format_args.name && a.format_args.extensions == b.format_args.extensions),
{
}

/// In a plan that copies from the first destination, a request reads an earlier first copy
/// only where that copy is of a file with the same modification time, name and extensions,
/// and then reads exactly that copy; a request for a file that no first copy matches so
/// becomes a first copy of its own.
pub proof fn lemma_first_copy_only_of_same_file(p: PlanView, source: FileView, dest: Seq<char>)
    requires
        p.use_first,
        p.consistent(),
    ensures
        (forall|i: int|
            0 <= i < p.first_moves.len() ==> !(#[trigger] p.first_moves[i].0.modified == source.modified
                && p.first_moves[i].0.format_args.name == source.format_args.name
                && p.first_moves[i].0.format_args.extensions == source.format_args.extensions))
            ==> p.after_move(source, dest).first_moves == p.first_moves.push((source, dest))
            && p.after_move(source, dest).moves == p.moves,
        p.after_move(source, dest).first_moves == p.first_moves ==> exists|i: int|
            0 <= i < p.first_moves.len() && #[trigger] p.first_moves[i].0.modified == source.modified
                && p.first_moves[i].0.format_args.name == source.format_args.name
                && p.first_moves[i].0.format_args.extensions == source.format_args.extensions
                && p.after_move(source, dest).moves == p.moves.insert(
                dest,
                FileView { path: p.first_moves[i].1, ..source },
            ),
{
    let key = file_key(source);
    if exists|i: int| has_first(p.first_moves, key, i) {
        let i = choose|i: int| has_first(p.first_moves, key, i);
        assert(has_first(p.first_moves, key, i));
        assert(first_dest_of(p.first_moves, key) == Some(p.first_moves[i].1));
    } else {
        assert(first_dest_of(p.first_moves, key) is None);
        let q = p.after_move(source, dest);
        assert(q.first_moves.len() == p.first_moves.len() + 1);
        assert forall|i: int| 0 <= i < p.first_moves.len() implies !(#[trigger] p.first_moves[i].0.modified
            == source.modified && p.first_moves[i].0.format_args.name == source.format_args.name
            && p.first_moves[i].0.format_args.extensions == source.format_args.extensions) by {
            assert(!has_first(p.first_moves, key, i));
        }
    }
}

/// The layout of a group is its date patterns filled in with the earliest modification time
/// of its files, in whatever order they are listed, and a directory of the group is the
/// directory pattern filled in with that time.
pub proof fn lemma_layout_at_earliest_time(
    dir_pattern: Seq<char>,
    file_pattern: Seq<char>,
    files: Seq<FileView>,
    offset: int,
    t: int,
    dir: Seq<char>,
)
    requires
        exists|i: int| 0 <= i < files.len() && #[trigger] files[i].modified == t,
        forall|j: int| 0 <= j < files.len() ==> t <= #[trigger] files[j].modified,
    ensures
        layout_at(dir_pattern, file_pattern, files, offset) == (
            strftime_at(t, offset, dir_pattern),
            strftime_at(t, offset, file_pattern),
        ),
        is_dir_of(dir_pattern, files, dir) <==> exists|o: int|
            offset_ok(o) && dir == #[trigger] strftime_at(t, o, dir_pattern),
{
    lemma_min_modified(files);
    let i = choose|i: int| 0 <= i < files.len() && #[trigger] files[i].modified == t;
    let k = choose|k: int| 0 <= k < files.len() && files[k].modified == min_modified(files);
    assert(t <= files[k].modified);
    assert(min_modified(files) <= files[i].modified);
    assert(min_modified(files) == t);
}

/// With `suffix`, some file of the group would land on an existing file whose content
/// differs.
pub open spec fn lands_on_different(
    files: Seq<FileView>,
    dir: Seq<char>,
    file_format: Seq<char>,
    existing: Map<Seq<char>, FileView>,
    suffix: nat,
) -> bool {
    exists|i: int|
        0 <= i < files.len() && existing.dom().contains(
            #[trigger] target_path(dir, file_format, files[i], suffix),
        ) && !same_content(files[i], existing[target_path(dir, file_format, files[i], suffix)])
}

/// With the suffix a group gets, no file of the group lands on an existing file whose
/// content differs; with every smaller suffix some file would.
pub proof fn lemma_suffix_no_file_lands_on_different(
    files: Seq<FileView>,
    dir: Seq<char>,
    file_format: Seq<char>,
    existing: Map<Seq<char>, FileView>,
    suffix_placeholder: bool,
)
    ensures
        suffix_outcome(files, dir, file_format, existing, suffix_placeholder) matches Ok(s) ==> {
            &&& forall|i: int|
                0 <= i < files.len() && existing.dom().contains(
                    target_path(dir, file_format, #[trigger] files[i], s as nat),
                ) ==> same_content(files[i], existing[target_path(dir, file_format, files[i], s as nat)])
            &&& forall|t: nat|
                t < s ==> #[trigger] lands_on_different(files, dir, file_format, existing, t)
        },
{
    if let Ok(s) = suffix_outcome(files, dir, file_format, existing, suffix_placeholder) {
        if conflict_at(files, dir, file_format, existing, 0) {
            let c = choose|t: int| is_first_free(files, dir, file_format, existing, t);
            assert(is_first_free(files, dir, file_format, existing, c));
            assert(c as u64 == c);
        }
        assert(is_first_free(files, dir, file_format, existing, s as int));
        assert forall|i: int|
            0 <= i < files.len() && existing.dom().contains(
                target_path(dir, file_format, #[trigger] files[i], s as nat),
            ) implies same_content(files[i], existing[target_path(dir, file_format, files[i], s as nat)]) by {
            if !same_content(files[i], existing[target_path(dir, file_format, files[i], s as nat)]) {
                assert(conflict_at(files, dir, file_format, existing, s as int));
            }
        }
        assert forall|t: nat| t < s implies #[trigger] lands_on_different(files, dir, file_format, existing, t) by {
            assert(conflict_at(files, dir, file_format, existing, t as int));
            let i = choose|i: int|
                0 <= i < files.len() && crate::planning::clashes(
                    existing,
                    #[trigger] files[i],
                    target_path(dir, file_format, files[i], (t as int) as nat),
                );
            assert(existing.dom().contains(target_path(dir, file_format, files[i], t)));
        }
    }
}

/// std's `Path::file_prefix` of a name that starts with a stem without dots: the stem,
/// whether the name ends there or goes on after a dot.
pub proof fn lemma_file_prefix_stem(stem: Seq<char>, rest: Seq<char>)
    requires
        stem.len() > 0,
        !stem.contains('.'),
    ensures
        file_prefix(stem) == stem,
        file_prefix(stem + seq!['.'] + rest) == stem,
{
    assert(stem != seq!['.', '.']) by {
        if stem == seq!['.', '.'] {
            assert(stem[0] == '.');
        }
    }
    assert(!stem.skip(1).contains('.')) by {
        if stem.skip(1).contains('.') {
            let j = choose|j: int| 0 <= j < stem.skip(1).len() && stem.skip(1)[j] == '.';
            assert(stem[j + 1] == '.');
        }
    }
    assert(stem.take(stem.len() as int) =~= stem);
    let name = stem + seq!['.'] + rest;
    assert(name != seq!['.', '.']) by {
        if name == seq!['.', '.'] {
            assert(name[0] == stem[0]);
        }
    }
    let n1 = name.skip(1);
    assert(is_first_index(n1, '.', stem.len() - 1)) by {
        assert(n1[stem.len() - 1] == name[stem.len() as int]);
        assert forall|j: int| 0 <= j < stem.len() - 1 implies n1[j] != '.' by {
            assert(n1[j] == stem[j + 1]);
        }
    }
    lemma_first_index(n1, '.', stem.len() - 1);
    assert(name.take(stem.len() as int) =~= stem);
}

proof fn lemma_with_key_members(files: Seq<FileInfo>, key: Seq<char>)
    ensures
        forall|x: int| 0 <= x < with_key(files, key).len() ==> group_key(
            (#[trigger] with_key(files, key)[x])@,
        ) == key && files.contains(with_key(files, key)[x]),
        forall|i: int| 0 <= i < files.len() && group_key((#[trigger] files[i])@) == key ==> with_key(
            files,
            key,
        ).contains(files[i]),
    decreases files.len(),
{
    if files.len() > 0 {
        let rest = files.drop_last();
        lemma_with_key_members(rest, key);
        let w = with_key(files, key);
        let wr = with_key(rest, key);
        assert forall|x: int| 0 <= x < w.len() implies group_key((#[trigger] w[x])@) == key && files.contains(w[x]) by {
            if x < wr.len() {
                assert(w[x] == wr[x]);
                let j = choose|j: int| 0 <= j < rest.len() && rest[j] == wr[x];
                assert(files[j] == rest[j]);
            } else {
                assert(w[x] == files.last());
                assert(files[files.len() - 1] == files.last());
            }
        }
        assert forall|i: int| 0 <= i < files.len() && group_key((#[trigger] files[i])@) == key implies w.contains(files[i]) by {
            if i < files.len() - 1 {
                assert(rest[i] == files[i]);
                let x = choose|x: int| 0 <= x < wr.len() && wr[x] == rest[i];
                assert(w[x] == wr[x]);
            } else {
                assert(w[w.len() - 1] == files[i]);
            }
        }
    }
}

/// `f` is in one of `groups`.
pub open spec fn in_some_group(groups: Seq<FileGroup>, f: FileInfo) -> bool {
    exists|g: int| 0 <= g < groups.len() && (#[trigger] groups[g]).files@.contains(f)
}

/// Grouping puts two files in one group exactly when std's `Path::file_prefix` of their file
/// names is equal: within a group every file has the prefix of its first file, no two groups
/// share a prefix, every file is in a group, and groups hold only given files.
pub proof fn lemma_grouping_by_file_prefix(groups: Seq<FileGroup>, files: Seq<FileInfo>)
    requires
        is_grouping(groups, keys_of(groups), files),
        all_named(files),
    ensures
        forall|g: int, i: int|
            0 <= g < groups.len() && 0 <= i < groups[g].files@.len() ==> file_prefix(
                path_file_name((#[trigger] groups[g].files@[i]).path@).unwrap(),
            ) == file_prefix(path_file_name(groups[g].files@[0].path@).unwrap()),
        forall|g: int, h: int|
            0 <= g < h < groups.len() ==> file_prefix(
                path_file_name((#[trigger] groups[g]).files@[0].path@).unwrap(),
            ) != file_prefix(path_file_name((#[trigger] groups[h]).files@[0].path@).unwrap()),
        forall|f: int| 0 <= f < files.len() ==> in_some_group(groups, #[trigger] files[f]),
        forall|g: int, i: int|
            0 <= g < groups.len() && 0 <= i < groups[g].files@.len() ==> files.contains(
                #[trigger] groups[g].files@[i],
            ),
{
    let keys = keys_of(groups);
    assert forall|g: int, i: int| 0 <= g < groups.len() && 0 <= i < groups[g].files@.len() implies group_key(
        (#[trigger] groups[g].files@[i])@,
    ) == keys[g] && files.contains(groups[g].files@[i]) by {
        lemma_with_key_members(files, keys[g]);
        assert(groups[g].files@ == with_key(files, keys[g]));
        assert(groups[g].files@[i] == with_key(files, keys[g])[i]);
    }
    assert forall|g: int, i: int|
        0 <= g < groups.len() && 0 <= i < groups[g].files@.len() implies file_prefix(
            path_file_name((#[trigger] groups[g].files@[i]).path@).unwrap(),
        ) == file_prefix(path_file_name(groups[g].files@[0].path@).unwrap()) by {
        assert(groups[g].files@.len() > 0);
        assert(group_key(groups[g].files@[i]@) == keys[g]);
        assert(group_key(groups[g].files@[0]@) == keys[g]);
    }
    assert forall|g: int, h: int| 0 <= g < h < groups.len() implies file_prefix(
        path_file_name((#[trigger] groups[g]).files@[0].path@).unwrap(),
    ) != file_prefix(path_file_name((#[trigger] groups[h]).files@[0].path@).unwrap()) by {
        assert(keys[g] != keys[h]);
        assert(groups[g].files@.len() > 0 && groups[h].files@.len() > 0);
        assert(group_key(groups[g].files@[0]@) == keys[g]);
        assert(group_key(groups[h].files@[0]@) == keys[h]);
    }
    assert forall|f: int| 0 <= f < files.len() implies in_some_group(groups, #[trigger] files[f]) by {
        assert(keys.contains(group_key(files[f]@)));
        let g = choose|g: int| 0 <= g < keys.len() && keys[g] == group_key(files[f]@);
        lemma_with_key_members(files, keys[g]);
        assert(groups[g].files@ == with_key(files, keys[g]));
        assert(group_key(files[f]@) == keys[g]);
        assert(with_key(files, keys[g]).contains(files[f]));
        assert(groups[g].files@.contains(files[f]));
    }
}

} // verus!
