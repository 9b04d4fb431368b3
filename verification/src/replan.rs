//! Planning a second time over what planning left behind plans nothing new.
use vstd::prelude::*;

use crate::files::{min_modified, same_content, target_path, FileView, PlanError};
use crate::laws::{lemma_add_targets_keeps, lemma_plan_groups_keeps};
use crate::planning::{
    add_targets, all_present, clashes, conflict_at, cutoff_upto, group_targets, is_first_free,
    lemma_first_free_unique, lemma_plan_groups_error_stays, lemma_plan_sources_error_stays,
    max_time, plan_group, plan_groups_upto, plan_source, plan_sources_upto, suffix_outcome,
};
use crate::plan::PlanView;

verus! {

/// Every file recorded in `e0` is recorded in `e1` as it was.
pub open spec fn grows(e0: Map<Seq<char>, FileView>, e1: Map<Seq<char>, FileView>) -> bool {
    forall|d: Seq<char>| #[trigger] e0.dom().contains(d) ==> e1.dom().contains(d) && e1[d] == e0[d]
}

/// With any suffix, no two files of the group have the same target path.
pub open spec fn targets_distinct(files: Seq<FileView>, layout: (Seq<char>, Seq<char>)) -> bool {
    forall|t: nat, a: int, b: int|
        0 <= a < b < files.len() ==> #[trigger] target_path(layout.0, layout.1, files[a], t)
            != #[trigger] target_path(layout.0, layout.1, files[b], t)
}

/// No group of any source has two files with the same target path.
pub open spec fn all_targets_distinct(
    sources: Seq<Seq<Seq<FileView>>>,
    layouts: Seq<Seq<(Seq<char>, Seq<char>)>>,
) -> bool {
    forall|i: int, j: int|
        0 <= i < sources.len() && 0 <= j < sources[i].len() ==> targets_distinct(
            #[trigger] sources[i][j],
            layouts[i][j],
        )
}

/// The group gets `suffix`, and all its files are at their targets with it.
pub open spec fn settled(
    files: Seq<FileView>,
    layout: (Seq<char>, Seq<char>),
    existing: Map<Seq<char>, FileView>,
    suffix_placeholder: bool,
    suffix: u64,
) -> bool {
    &&& suffix_outcome(files, layout.0, layout.1, existing, suffix_placeholder) == Ok::<u64, PlanError>(suffix)
    &&& all_present(files, layout.0, layout.1, existing, suffix as int)
}

/// The group is settled with some suffix.
pub open spec fn is_settled(
    files: Seq<FileView>,
    layout: (Seq<char>, Seq<char>),
    existing: Map<Seq<char>, FileView>,
    suffix_placeholder: bool,
) -> bool {
    exists|s: u64| settled(files, layout, existing, suffix_placeholder, s)
}

proof fn lemma_outcome_free(
    files: Seq<FileView>,
    l: (Seq<char>, Seq<char>),
    e: Map<Seq<char>, FileView>,
    sp: bool,
    s: u64,
)
    requires
        suffix_outcome(files, l.0, l.1, e, sp) == Ok::<u64, PlanError>(s),
    ensures
        is_first_free(files, l.0, l.1, e, s as int),
        s > 0 ==> sp,
{
    if conflict_at(files, l.0, l.1, e, 0) {
        let c = choose|t: int| is_first_free(files, l.0, l.1, e, t);
        assert(is_first_free(files, l.0, l.1, e, c));
        assert(c as u64 == c);
    }
}

proof fn lemma_free_settles(
    files: Seq<FileView>,
    l: (Seq<char>, Seq<char>),
    e: Map<Seq<char>, FileView>,
    sp: bool,
    s: u64,
)
    requires
        is_first_free(files, l.0, l.1, e, s as int),
        s > 0 ==> sp,
    ensures
        suffix_outcome(files, l.0, l.1, e, sp) == Ok::<u64, PlanError>(s),
{
    if s > 0 {
        assert(conflict_at(files, l.0, l.1, e, 0));
        lemma_first_free_unique(files, l.0, l.1, e, s as int);
    }
}

/// A first free suffix stays first free, with every file at its target, when the existing
/// files grow by files at those targets that count as the same content.
proof fn lemma_first_free_grows(
    files: Seq<FileView>,
    l: (Seq<char>, Seq<char>),
    e: Map<Seq<char>, FileView>,
    f: Map<Seq<char>, FileView>,
    s: u64,
)
    requires
        is_first_free(files, l.0, l.1, e, s as int),
        grows(e, f),
        forall|i: int|
            0 <= i < files.len() ==> f.dom().contains(target_path(l.0, l.1, #[trigger] files[i], s as nat)),
        forall|i: int|
            0 <= i < files.len() && !e.dom().contains(target_path(l.0, l.1, #[trigger] files[i], s as nat))
                ==> !clashes(f, files[i], target_path(l.0, l.1, files[i], s as nat)),
    ensures
        is_first_free(files, l.0, l.1, f, s as int),
        all_present(files, l.0, l.1, f, s as int),
{
    assert forall|t: int| 0 <= t < s implies conflict_at(files, l.0, l.1, f, t) by {
        assert(conflict_at(files, l.0, l.1, e, t));
        let i = choose|i: int|
            0 <= i < files.len() && clashes(e, #[trigger] files[i], target_path(l.0, l.1, files[i], t as nat));
        let p = target_path(l.0, l.1, files[i], t as nat);
        assert(e.dom().contains(p));
        assert(clashes(f, files[i], p));
    }
    assert(!conflict_at(files, l.0, l.1, f, s as int)) by {
        if conflict_at(files, l.0, l.1, f, s as int) {
            let i = choose|i: int|
                0 <= i < files.len() && clashes(f, #[trigger] files[i], target_path(l.0, l.1, files[i], s as nat));
            let p = target_path(l.0, l.1, files[i], s as nat);
            if e.dom().contains(p) {
                assert(f[p] == e[p]);
                assert(clashes(e, files[i], p));
                assert(conflict_at(files, l.0, l.1, e, s as int));
            }
        }
    }
}

/// A settled group stays settled as the existing files grow.
proof fn lemma_settled_grows(
    files: Seq<FileView>,
    l: (Seq<char>, Seq<char>),
    e: Map<Seq<char>, FileView>,
    f: Map<Seq<char>, FileView>,
    sp: bool,
    s: u64,
)
    requires
        settled(files, l, e, sp, s),
        grows(e, f),
    ensures
        settled(files, l, f, sp, s),
{
    lemma_outcome_free(files, l, e, sp, s);
    assert forall|i: int| 0 <= i < files.len() implies f.dom().contains(
        target_path(l.0, l.1, #[trigger] files[i], s as nat),
    ) by {
        assert(e.dom().contains(target_path(l.0, l.1, files[i], s as nat)));
    }
    lemma_first_free_grows(files, l, e, f, s);
    lemma_free_settles(files, l, f, sp, s);
}

proof fn lemma_grows_trans(
    e0: Map<Seq<char>, FileView>,
    e1: Map<Seq<char>, FileView>,
    e2: Map<Seq<char>, FileView>,
)
    requires
        grows(e0, e1),
        grows(e1, e2),
    ensures
        grows(e0, e2),
{
    assert forall|d: Seq<char>| #[trigger] e0.dom().contains(d) implies e2.dom().contains(d) && e2[d] == e0[d] by {
        assert(e1.dom().contains(d));
    }
}

/// What adding distinct targets records: every target path is taken, a path that was free
/// holds its target's file, and nothing else is added.
proof fn lemma_add_targets_state(
    st: (Map<Seq<char>, FileView>, PlanView),
    tg: Seq<(Seq<char>, FileView)>,
    k: int,
)
    requires
        0 <= k <= tg.len(),
        forall|a: int, b: int| 0 <= a < b < tg.len() ==> tg[a].0 != tg[b].0,
    ensures
        grows(st.0, add_targets(st, tg, k).0),
        forall|i: int|
            0 <= i < k ==> add_targets(st, tg, k).0.dom().contains((#[trigger] tg[i]).0) && (
            !st.0.dom().contains(tg[i].0) ==> add_targets(st, tg, k).0[tg[i].0] == tg[i].1),
        forall|d: Seq<char>|
            #[trigger] add_targets(st, tg, k).0.dom().contains(d) ==> st.0.dom().contains(d) || exists|i: int|
                0 <= i < k && (#[trigger] tg[i]).0 == d,
    decreases k,
{
    if k > 0 {
        lemma_add_targets_state(st, tg, k - 1);
        let prev = add_targets(st, tg, k - 1);
        let next = add_targets(st, tg, k);
        let (dest, file) = tg[k - 1];
        if prev.0.dom().contains(dest) {
            assert(next == prev);
            if !st.0.dom().contains(dest) {
                let i = choose|i: int| 0 <= i < k - 1 && (#[trigger] tg[i]).0 == dest;
                assert(tg[i].0 != tg[k - 1].0);
            }
            assert forall|d: Seq<char>| #[trigger] next.0.dom().contains(d) implies st.0.dom().contains(d)
                || exists|i: int| 0 <= i < k && (#[trigger] tg[i]).0 == d by {
                if !st.0.dom().contains(d) {
                    let i = choose|i: int| 0 <= i < k - 1 && (#[trigger] tg[i]).0 == d;
                }
            }
        } else {
            assert(next.0 == prev.0.insert(dest, file));
            assert forall|i: int| 0 <= i < k implies next.0.dom().contains((#[trigger] tg[i]).0) && (
            !st.0.dom().contains(tg[i].0) ==> next.0[tg[i].0] == tg[i].1) by {
                if i < k - 1 {
                    assert(tg[i].0 != tg[k - 1].0);
                }
            }
            assert forall|d: Seq<char>| #[trigger] next.0.dom().contains(d) implies st.0.dom().contains(d)
                || exists|i: int| 0 <= i < k && (#[trigger] tg[i]).0 == d by {
                if d == dest {
                    assert(tg[k - 1].0 == d);
                } else if !st.0.dom().contains(d) {
                    assert(prev.0.dom().contains(d));
                    let i = choose|i: int| 0 <= i < k - 1 && (#[trigger] tg[i]).0 == d;
                }
            }
        }
    }
}

/// Planning a group at its suffix settles it.
proof fn lemma_add_targets_settles(
    st: (Map<Seq<char>, FileView>, PlanView),
    files: Seq<FileView>,
    l: (Seq<char>, Seq<char>),
    sp: bool,
    s: u64,
)
    requires
        suffix_outcome(files, l.0, l.1, st.0, sp) == Ok::<u64, PlanError>(s),
        targets_distinct(files, l),
    ensures
        settled(
            files,
            l,
            add_targets(st, group_targets(files, l.0, l.1, s as int), files.len() as int).0,
            sp,
            s,
        ),
{
    let tg = group_targets(files, l.0, l.1, s as int);
    let n = files.len() as int;
    assert forall|a: int, b: int| 0 <= a < b < tg.len() implies tg[a].0 != tg[b].0 by {
        assert(target_path(l.0, l.1, files[a], s as nat) != target_path(l.0, l.1, files[b], s as nat));
    }
    lemma_add_targets_state(st, tg, n);
    let e = st.0;
    let f = add_targets(st, tg, n).0;
    lemma_outcome_free(files, l, e, sp, s);
    assert forall|i: int| 0 <= i < files.len() implies f.dom().contains(
        target_path(l.0, l.1, #[trigger] files[i], s as nat),
    ) by {
        assert(tg[i].0 == target_path(l.0, l.1, files[i], s as nat));
    }
    assert forall|i: int|
        0 <= i < files.len() && !e.dom().contains(target_path(l.0, l.1, #[trigger] files[i], s as nat))
            implies !clashes(f, files[i], target_path(l.0, l.1, files[i], s as nat)) by {
        assert(tg[i].0 == target_path(l.0, l.1, files[i], s as nat));
        assert(f[tg[i].0] == files[i]);
    }
    lemma_first_free_grows(files, l, e, f, s);
    lemma_free_settles(files, l, f, sp, s);
}

/// Of the groups counted so far, each settled one is no later than the cutoff, and a
/// cutoff time is the earliest time of a settled group.
proof fn lemma_cutoff_covers(
    groups: Seq<Seq<FileView>>,
    layouts: Seq<(Seq<char>, Seq<char>)>,
    e: Map<Seq<char>, FileView>,
    sp: bool,
    k: int,
)
    requires
        0 <= k,
        cutoff_upto(groups, layouts, e, sp, k) is Ok,
    ensures
        forall|j: int|
            0 <= j < k && #[trigger] is_settled(groups[j], layouts[j], e, sp) ==> cutoff_upto(
                groups,
                layouts,
                e,
                sp,
                k,
            )->Ok_0 is Some && min_modified(groups[j]) <= cutoff_upto(groups, layouts, e, sp, k)->Ok_0->0,
        cutoff_upto(groups, layouts, e, sp, k)->Ok_0 is Some ==> exists|j: int|
            0 <= j < k && #[trigger] is_settled(groups[j], layouts[j], e, sp) && min_modified(groups[j])
                == cutoff_upto(groups, layouts, e, sp, k)->Ok_0->0,
    decreases k,
{
    if k > 0 {
        lemma_cutoff_covers(groups, layouts, e, sp, k - 1);
        let c = cutoff_upto(groups, layouts, e, sp, k - 1)->Ok_0;
        let g = groups[k - 1];
        let l = layouts[k - 1];
        let s = suffix_outcome(g, l.0, l.1, e, sp)->Ok_0;
        assert forall|j: int|
            0 <= j < k && #[trigger] is_settled(groups[j], layouts[j], e, sp) implies cutoff_upto(
                groups,
                layouts,
                e,
                sp,
                k,
            )->Ok_0 is Some && min_modified(groups[j]) <= cutoff_upto(groups, layouts, e, sp, k)->Ok_0->0 by {
            if j == k - 1 {
                let t = choose|t: u64| settled(groups[j], layouts[j], e, sp, t);
                assert(t == s);
            }
        }
        if all_present(g, l.0, l.1, e, s as int) {
            assert(settled(g, l, e, sp, s));
            assert(is_settled(groups[k - 1], layouts[k - 1], e, sp));
            if let Some(y) = c {
                if y > min_modified(g) {
                    let j = choose|j: int|
                        0 <= j < k - 1 && #[trigger] is_settled(groups[j], layouts[j], e, sp) && min_modified(groups[j]) == y;
                }
            }
        }
    }
}

/// Groups that are all no later than the cutoff leave the state as it was.
proof fn lemma_all_skipped(
    st: (Map<Seq<char>, FileView>, PlanView),
    groups: Seq<Seq<FileView>>,
    layouts: Seq<(Seq<char>, Seq<char>)>,
    c: Option<int>,
    sp: bool,
    k: int,
)
    requires
        forall|j: int| 0 <= j < k ==> c is Some && min_modified(#[trigger] groups[j]) <= c->0,
    ensures
        plan_groups_upto(st, groups, layouts, c, sp, k) == Ok::<(Map<Seq<char>, FileView>, PlanView), PlanError>(st),
    decreases k,
{
    if k > 0 {
        lemma_all_skipped(st, groups, layouts, c, sp, k - 1);
        assert(min_modified(groups[k - 1]) <= c->0);
    }
}

/// Planning one group only adds existing files.
proof fn lemma_plan_group_grows(
    st: (Map<Seq<char>, FileView>, PlanView),
    g: Seq<FileView>,
    l: (Seq<char>, Seq<char>),
    c: Option<int>,
    sp: bool,
)
    ensures
        plan_group(st, g, l, c, sp) matches Ok(s1) ==> grows(st.0, s1.0),
{
    if !(c matches Some(x) && min_modified(g) <= x) {
        if let Ok(sfx) = suffix_outcome(g, l.0, l.1, st.0, sp) {
            lemma_add_targets_keeps(st, group_targets(g, l.0, l.1, sfx as int), g.len() as int);
        }
    }
}

/// A later prefix of a source's groups grows the existing files of an earlier one.
proof fn lemma_groups_mono(
    st: (Map<Seq<char>, FileView>, PlanView),
    groups: Seq<Seq<FileView>>,
    layouts: Seq<(Seq<char>, Seq<char>)>,
    c: Option<int>,
    sp: bool,
    k: int,
    m: int,
)
    requires
        0 <= k <= m,
        plan_groups_upto(st, groups, layouts, c, sp, m) is Ok,
    ensures
        plan_groups_upto(st, groups, layouts, c, sp, k) is Ok,
        grows(
            plan_groups_upto(st, groups, layouts, c, sp, k)->Ok_0.0,
            plan_groups_upto(st, groups, layouts, c, sp, m)->Ok_0.0,
        ),
    decreases m - k,
{
    if plan_groups_upto(st, groups, layouts, c, sp, k) is Err {
        lemma_plan_groups_error_stays(st, groups, layouts, c, sp, k, m);
    }
    if k < m {
        lemma_groups_mono(st, groups, layouts, c, sp, k + 1, m);
        let a = plan_groups_upto(st, groups, layouts, c, sp, k)->Ok_0;
        lemma_plan_group_grows(a, groups[k], layouts[k], c, sp);
        lemma_grows_trans(
            a.0,
            plan_groups_upto(st, groups, layouts, c, sp, k + 1)->Ok_0.0,
            plan_groups_upto(st, groups, layouts, c, sp, m)->Ok_0.0,
        );
    }
}

/// Planning one source only adds existing files.
proof fn lemma_plan_source_grows(
    st: (Map<Seq<char>, FileView>, PlanView),
    groups: Seq<Seq<FileView>>,
    layouts: Seq<(Seq<char>, Seq<char>)>,
    sp: bool,
)
    ensures
        plan_source(st, groups, layouts, sp) matches Ok(s1) ==> grows(st.0, s1.0),
{
    if let Ok(c) = cutoff_upto(groups, layouts, st.0, sp, groups.len() as int) {
        lemma_plan_groups_keeps(st, groups, layouts, c, sp, groups.len() as int);
    }
}

/// A later prefix of the sources grows the existing files of an earlier one.
proof fn lemma_sources_mono(
    st: (Map<Seq<char>, FileView>, PlanView),
    sources: Seq<Seq<Seq<FileView>>>,
    layouts: Seq<Seq<(Seq<char>, Seq<char>)>>,
    sp: bool,
    k: int,
    m: int,
)
    requires
        0 <= k <= m,
        plan_sources_upto(st, sources, layouts, sp, m) is Ok,
    ensures
        plan_sources_upto(st, sources, layouts, sp, k) is Ok,
        grows(
            plan_sources_upto(st, sources, layouts, sp, k)->Ok_0.0,
            plan_sources_upto(st, sources, layouts, sp, m)->Ok_0.0,
        ),
    decreases m - k,
{
    if plan_sources_upto(st, sources, layouts, sp, k) is Err {
        lemma_plan_sources_error_stays(st, sources, layouts, sp, k, m);
    }
    if k < m {
        lemma_sources_mono(st, sources, layouts, sp, k + 1, m);
        let a = plan_sources_upto(st, sources, layouts, sp, k)->Ok_0;
        lemma_plan_source_grows(a, sources[k], layouts[k], sp);
        lemma_grows_trans(
            a.0,
            plan_sources_upto(st, sources, layouts, sp, k + 1)->Ok_0.0,
            plan_sources_upto(st, sources, layouts, sp, m)->Ok_0.0,
        );
    }
}

/// Planning a source again, over existing files grown from what planning it left, plans
/// nothing when it succeeds.
proof fn lemma_source_replans_nothing(
    a: (Map<Seq<char>, FileView>, PlanView),
    b: (Map<Seq<char>, FileView>, PlanView),
    fs: (Map<Seq<char>, FileView>, PlanView),
    groups: Seq<Seq<FileView>>,
    layouts: Seq<(Seq<char>, Seq<char>)>,
    sp: bool,
)
    requires
        plan_source(a, groups, layouts, sp) == Ok::<(Map<Seq<char>, FileView>, PlanView), PlanError>(b),
        grows(b.0, fs.0),
        plan_source(fs, groups, layouts, sp) is Ok,
        forall|j: int| 0 <= j < groups.len() ==> targets_distinct(#[trigger] groups[j], layouts[j]),
    ensures
        plan_source(fs, groups, layouts, sp) == Ok::<(Map<Seq<char>, FileView>, PlanView), PlanError>(fs),
{
    let n = groups.len() as int;
    let c1 = cutoff_upto(groups, layouts, a.0, sp, n)->Ok_0;
    let c2 = cutoff_upto(groups, layouts, fs.0, sp, n)->Ok_0;
    lemma_cutoff_covers(groups, layouts, fs.0, sp, n);
    lemma_cutoff_covers(groups, layouts, a.0, sp, n);
    lemma_plan_groups_keeps(a, groups, layouts, c1, sp, n);
    assert(grows(a.0, b.0));
    lemma_grows_trans(a.0, b.0, fs.0);
    assert forall|j: int| 0 <= j < n implies c2 is Some && min_modified(#[trigger] groups[j]) <= c2->0 by {
        if c1 is Some && min_modified(groups[j]) <= c1->0 {
            let x1 = c1->0;
            let h = choose|h: int|
                0 <= h < n && #[trigger] is_settled(groups[h], layouts[h], a.0, sp) && min_modified(groups[h]) == x1;
            let s = choose|s: u64| settled(groups[h], layouts[h], a.0, sp, s);
            lemma_settled_grows(groups[h], layouts[h], a.0, fs.0, sp, s);
            assert(is_settled(groups[h], layouts[h], fs.0, sp));
        } else {
            lemma_groups_mono(a, groups, layouts, c1, sp, j, n);
            lemma_groups_mono(a, groups, layouts, c1, sp, j + 1, n);
            let t = plan_groups_upto(a, groups, layouts, c1, sp, j)->Ok_0;
            let t1 = plan_groups_upto(a, groups, layouts, c1, sp, j + 1)->Ok_0;
            assert(plan_group(t, groups[j], layouts[j], c1, sp) == Ok::<
                (Map<Seq<char>, FileView>, PlanView),
                PlanError,
            >(t1));
            let s = suffix_outcome(groups[j], layouts[j].0, layouts[j].1, t.0, sp)->Ok_0;
            lemma_add_targets_settles(t, groups[j], layouts[j], sp, s);
            lemma_grows_trans(t1.0, b.0, fs.0);
            lemma_settled_grows(groups[j], layouts[j], t1.0, fs.0, sp, s);
            assert(is_settled(groups[j], layouts[j], fs.0, sp));
        }
    }
    lemma_all_skipped(fs, groups, layouts, c2, sp, n);
}

proof fn lemma_replan_prefix(
    s: (Map<Seq<char>, FileView>, PlanView),
    sources: Seq<Seq<Seq<FileView>>>,
    layouts: Seq<Seq<(Seq<char>, Seq<char>)>>,
    sp: bool,
    k: int,
)
    requires
        0 <= k <= sources.len(),
        all_targets_distinct(sources, layouts),
        plan_sources_upto(s, sources, layouts, sp, sources.len() as int) is Ok,
        plan_sources_upto(
            plan_sources_upto(s, sources, layouts, sp, sources.len() as int)->Ok_0,
            sources,
            layouts,
            sp,
            sources.len() as int,
        ) is Ok,
    ensures
        plan_sources_upto(
            plan_sources_upto(s, sources, layouts, sp, sources.len() as int)->Ok_0,
            sources,
            layouts,
            sp,
            k,
        ) == Ok::<(Map<Seq<char>, FileView>, PlanView), PlanError>(
            plan_sources_upto(s, sources, layouts, sp, sources.len() as int)->Ok_0,
        ),
    decreases k,
{
    let n = sources.len() as int;
    let f = plan_sources_upto(s, sources, layouts, sp, n)->Ok_0;
    if k > 0 {
        lemma_replan_prefix(s, sources, layouts, sp, k - 1);
        lemma_sources_mono(f, sources, layouts, sp, k, n);
        lemma_sources_mono(s, sources, layouts, sp, k - 1, n);
        lemma_sources_mono(s, sources, layouts, sp, k, n);
        let a = plan_sources_upto(s, sources, layouts, sp, k - 1)->Ok_0;
        let b = plan_sources_upto(s, sources, layouts, sp, k)->Ok_0;
        assert forall|j: int| 0 <= j < sources[k - 1].len() implies targets_distinct(
            #[trigger] sources[k - 1][j],
            layouts[k - 1][j],
        ) by {
        }
        lemma_source_replans_nothing(a, b, f, sources[k - 1], layouts[k - 1], sp);
    }
}

/// Planning again over what planning left plans nothing new: where the files of each group
/// have distinct target paths with any suffix, and planning a second time, from the existing
/// files and the plan that the first planning left, succeeds, it leaves both as they were.
pub proof fn lemma_planning_twice_plans_nothing_new(
    s: (Map<Seq<char>, FileView>, PlanView),
    sources: Seq<Seq<Seq<FileView>>>,
    layouts: Seq<Seq<(Seq<char>, Seq<char>)>>,
    suffix_placeholder: bool,
)
    requires
        all_targets_distinct(sources, layouts),
        plan_sources_upto(s, sources, layouts, suffix_placeholder, sources.len() as int) is Ok,
        plan_sources_upto(
            plan_sources_upto(s, sources, layouts, suffix_placeholder, sources.len() as int)->Ok_0,
            sources,
            layouts,
            suffix_placeholder,
            sources.len() as int,
        ) is Ok,
    ensures
        plan_sources_upto(
            plan_sources_upto(s, sources, layouts, suffix_placeholder, sources.len() as int)->Ok_0,
            sources,
            layouts,
            suffix_placeholder,
            sources.len() as int,
        ) == plan_sources_upto(s, sources, layouts, suffix_placeholder, sources.len() as int),
{
    lemma_replan_prefix(s, sources, layouts, suffix_placeholder, sources.len() as int);
}

/// After a group is planned (it is later than the cutoff) with the suffix it gets, every
/// file of the group is at its target path, and what is recorded there counts as the same
/// content as the file: no target of a planned group holds a different file.
pub proof fn lemma_planned_group_holds_its_files(
    st: (Map<Seq<char>, FileView>, PlanView),
    files: Seq<FileView>,
    layout: (Seq<char>, Seq<char>),
    cutoff: Option<int>,
    suffix_placeholder: bool,
)
    requires
        targets_distinct(files, layout),
        plan_group(st, files, layout, cutoff, suffix_placeholder) is Ok,
        !(cutoff is Some && min_modified(files) <= cutoff->0),
    ensures
        forall|i: int|
            0 <= i < files.len() ==> {
                let p = target_path(
                    layout.0,
                    layout.1,
                    #[trigger] files[i],
                    suffix_outcome(files, layout.0, layout.1, st.0, suffix_placeholder)->Ok_0 as nat,
                );
                let e = plan_group(st, files, layout, cutoff, suffix_placeholder)->Ok_0.0;
                e.dom().contains(p) && same_content(files[i], e[p])
            },
{
    let s = suffix_outcome(files, layout.0, layout.1, st.0, suffix_placeholder)->Ok_0;
    lemma_add_targets_settles(st, files, layout, suffix_placeholder, s);
    let e = plan_group(st, files, layout, cutoff, suffix_placeholder)->Ok_0.0;
    lemma_outcome_free(files, layout, e, suffix_placeholder, s);
    assert forall|i: int| 0 <= i < files.len() implies {
        let p = target_path(layout.0, layout.1, #[trigger] files[i], s as nat);
        e.dom().contains(p) && same_content(files[i], e[p])
    } by {
        let p = target_path(layout.0, layout.1, files[i], s as nat);
        assert(e.dom().contains(p));
        if !same_content(files[i], e[p]) {
            assert(clashes(e, files[i], p));
            assert(conflict_at(files, layout.0, layout.1, e, s as int));
        }
    }
}

} // verus!
