//! The copy plan: which file goes to which destination path.
use vstd::prelude::*;

use crate::order::{pairs_sorted, sort_pairs};
use crate::files::{file_key, FileInfo, FileView};
use crate::planning::{file_views, lemma_file_views_insert};
use crate::pathmap::{entries_map, keys_distinct, lemma_entries_map_value, PathMap};

verus! {

/// A copy plan: whether later destinations copy from the first one, the copies from a
/// file to a destination path (keyed by that path), and the first copy of each file when
/// later destinations copy from the first.
#[verifier::ext_equal]
pub struct PlanView {
    pub use_first: bool,
    pub moves: Map<Seq<char>, FileView>,
    pub first_moves: Seq<(FileView, Seq<char>)>,
}

/// The first copies name each file once.
pub open spec fn first_keys_distinct(first: Seq<(FileView, Seq<char>)>) -> bool {
    forall|i: int, j: int|
        0 <= i < j < first.len() ==> file_key(first[i].0) != file_key(first[j].0)
}

/// The first copy of a file with `key`.
pub open spec fn has_first(first: Seq<(FileView, Seq<char>)>, key: (int, Seq<char>, Seq<char>), i: int) -> bool {
    0 <= i < first.len() && file_key(first[i].0) == key
}

/// Where the file with `key` is copied first, if it is.
pub open spec fn first_dest_of(first: Seq<(FileView, Seq<char>)>, key: (int, Seq<char>, Seq<char>)) -> Option<
    Seq<char>,
> {
    if exists|i: int| has_first(first, key, i) {
        Some(first[choose|i: int| has_first(first, key, i)].1)
    } else {
        None
    }
}

/// The file that the earliest first copy to `dest` copies.
pub open spec fn first_landing(first: Seq<(FileView, Seq<char>)>, dest: Seq<char>) -> Option<FileView>
    decreases first.len(),
{
    if first.len() == 0 {
        None
    } else {
        match first_landing(first.drop_last(), dest) {
            Some(f) => Some(f),
            None => if first.last().1 == dest {
                Some(first.last().0)
            } else {
                None
            },
        }
    }
}

/// A file apart from its path.
pub open spec fn without_path(f: FileView) -> FileView {
    FileView { path: seq![], ..f }
}

impl PlanView {
    /// The plan after asking for a copy of `source` at `dest`. Copying directly, the copy
    /// reads `source`. Copying from the first destination, the first request for a file
    /// becomes its first copy, and later requests read that first copy.
    pub open spec fn after_move(self, source: FileView, dest: Seq<char>) -> PlanView {
        if !self.use_first {
            PlanView { moves: self.moves.insert(dest, source), ..self }
        } else {
            match first_dest_of(self.first_moves, file_key(source)) {
                Some(first_dest) => PlanView {
                    moves: self.moves.insert(dest, FileView { path: first_dest, ..source }),
                    ..self
                },
                None => PlanView { first_moves: self.first_moves.push((source, dest)), ..self },
            }
        }
    }

    /// The number of copies.
    pub open spec fn count(self) -> nat {
        self.moves.dom().len() + self.first_moves.len()
    }

    /// Every path that receives a copy.
    pub open spec fn destinations(self) -> Set<Seq<char>> {
        self.moves.dom() + Set::new(|d: Seq<char>| first_landing(self.first_moves, d) is Some)
    }

    /// What lands at `dest`: the file copied there, apart from the path it is read from.
    pub open spec fn landed(self, dest: Seq<char>) -> Option<FileView> {
        if self.moves.dom().contains(dest) {
            Some(without_path(self.moves[dest]))
        } else {
            match first_landing(self.first_moves, dest) {
                Some(f) => Some(without_path(f)),
                None => None,
            }
        }
    }

    /// The plan is consistent: first copies name each file once, there are none when copying
    /// directly, and each later copy reads the first copy of the same file.
    pub open spec fn consistent(self) -> bool {
        &&& self.moves.dom().finite()
        &&& first_keys_distinct(self.first_moves)
        &&& !self.use_first ==> self.first_moves.len() == 0
        &&& self.use_first ==> forall|d: Seq<char>|
            #[trigger] self.moves.dom().contains(d) ==> first_dest_of(
                self.first_moves,
                file_key(self.moves[d]),
            ) == Some(self.moves[d].path)
    }
}

/// The pair view of a first copy.
pub open spec fn first_view(e: (FileInfo, String)) -> (FileView, Seq<char>) {
    (e.0@, e.1@)
}

/// Which pass of copying a list of copies belongs to.
#[derive(Debug, PartialEq, Eq, Structural)]
pub enum PassLabel {
    /// The only pass.
    Only,
    /// The first of two passes: from the sources to the first destination.
    First,
    /// The second of two passes: from the first destination to the others.
    Second,
}

/// One pass of copying: pairs of source path and destination path.
pub struct CopyPass {
    pub label: PassLabel,
    pub jobs: Vec<(String, String)>,
}

/// `jobs` lists the first copies, in order, as (source path, destination).
pub open spec fn lists_first(jobs: Seq<(String, String)>, first: Seq<(FileView, Seq<char>)>) -> bool {
    &&& jobs.len() == first.len()
    &&& forall|i: int| 0 <= i < jobs.len() ==> (#[trigger] jobs[i]).0@ == first[i].0.path && jobs[i].1@ == first[i].1
}

/// `jobs` lists the copies of `moves`, each once, as (source path, destination).
pub open spec fn lists_moves(jobs: Seq<(String, String)>, moves: Map<Seq<char>, FileView>) -> bool {
    &&& jobs.len() == moves.dom().len()
    &&& forall|i: int| 0 <= i < jobs.len() ==> moves.dom().contains((#[trigger] jobs[i]).1@) && moves[jobs[i].1@].path == jobs[i].0@
    &&& forall|i: int, j: int| 0 <= i < j < jobs.len() ==> jobs[i].1@ != jobs[j].1@
}

/// A plan of copies.
pub struct Plan {
    use_first_moves: bool,
    moves: PathMap<FileInfo>,
    first_moves: Vec<(FileInfo, String)>,
}

impl View for Plan {
    type V = PlanView;

    closed spec fn view(&self) -> PlanView {
        PlanView {
            use_first: self.use_first_moves,
            moves: file_views(self.moves@),
            first_moves: self.first_moves@.map_values(|e: (FileInfo, String)| first_view(e)),
        }
    }
}

proof fn lemma_first_dest_unique(first: Seq<(FileView, Seq<char>)>, key: (int, Seq<char>, Seq<char>), i: int)
    requires
        first_keys_distinct(first),
        has_first(first, key, i),
    ensures
        first_dest_of(first, key) == Some(first[i].1),
{
    let j = choose|j: int| has_first(first, key, j);
    assert(has_first(first, key, j));
    if i < j {
        assert(file_key(first[i].0) != file_key(first[j].0));
    } else if j < i {
        assert(file_key(first[j].0) != file_key(first[i].0));
    }
}

impl Plan {
    /// The plan is consistent and its maps are well formed.
    pub closed spec fn wf(&self) -> bool {
        &&& self.moves.wf()
        &&& self@.consistent()
        &&& self@.count() <= usize::MAX
    }

    /// A well-formed plan is consistent and its count fits a `usize`.
    pub proof fn lemma_wf(&self)
        requires
            self.wf(),
        ensures
            self@.consistent(),
            self@.count() <= usize::MAX,
    {
    }

    /// An empty plan; with `use_first_dest_copies` later destinations copy from the first.
    pub fn new(use_first_dest_copies: bool) -> (res: Self)
        ensures
            res.wf(),
            res@.use_first == use_first_dest_copies,
            res@.moves == Map::<Seq<char>, FileView>::empty(),
            res@.first_moves == Seq::<(FileView, Seq<char>)>::empty(),
            res@ == new_plan(use_first_dest_copies),
    {
        let res = Plan { use_first_moves: use_first_dest_copies, moves: PathMap::new(), first_moves: Vec::new() };
        assert(file_views(res.moves@) =~= Map::<Seq<char>, FileView>::empty());
        assert(res@.first_moves =~= Seq::<(FileView, Seq<char>)>::empty());
        res
    }

    /// The number of copies.
    pub fn len(&self) -> (res: usize)
        requires
            self.wf(),
        ensures
            res == self@.count(),
    {
        let n = self.moves.len();
        assert(file_views(self.moves@).dom() =~= self.moves@.dom());
        n + self.first_moves.len()
    }

    /// Whether copies go from the first destination to the others.
    pub fn uses_first_moves(&self) -> (res: bool)
        ensures
            res == self@.use_first,
    {
        self.use_first_moves
    }

    fn find_first(&self, source: &FileInfo) -> (res: Option<usize>)
        requires
            self.wf(),
        ensures
            match res {
                Some(i) => i < self.first_moves@.len() && has_first(self@.first_moves, file_key(source@), i as int),
                None => forall|i: int| !has_first(self@.first_moves, file_key(source@), i),
            },
    {
        let mut i: usize = 0;
        while i < self.first_moves.len()
            invariant
                i <= self.first_moves@.len(),
                forall|j: int| 0 <= j < i ==> !has_first(self@.first_moves, file_key(source@), j),
            decreases self.first_moves.len() - i,
        {
            if self.first_moves[i].0.same_key(source) {
                return Some(i);
            }
            i = i + 1;
        }
        None
    }

    /// Asks for a copy of `source` at `dest`, as `PlanView::after_move` says.
    pub fn add_move(&mut self, source: &FileInfo, dest: &str)
        requires
            old(self).wf(),
            old(self)@.count() < usize::MAX,
        ensures
            final(self).wf(),
            final(self)@ == old(self)@.after_move(source@, dest@),
    {
        let ghost old_view = self@;
        if self.use_first_moves {
            match self.find_first(source) {
                Some(i) => {
                    let first_dest = self.first_moves[i].1.clone();
                    proof {
                        lemma_first_dest_unique(old_view.first_moves, file_key(source@), i as int);
                    }
                    let new_file = FileInfo {
                        path: first_dest,
                        modified: source.modified,
                        size: source.size,
                        format_args: source.format_args.clone(),
                    };
                    let ghost nf = new_file@;
                    proof {
                        lemma_file_views_insert(self.moves@, dest@, new_file);
                        self.moves.lemma_entries();
                    }
                    self.moves.insert(dest.to_string(), new_file);
                    proof {
                        self.moves.lemma_entries();
                        assert(nf =~= FileView { path: old_view.first_moves[i as int].1, ..source@ });
                        assert(self@ =~= old_view.after_move(source@, dest@));
                        assert forall|d: Seq<char>| #[trigger] self@.moves.dom().contains(d) implies first_dest_of(
                            self@.first_moves,
                            file_key(self@.moves[d]),
                        ) == Some(self@.moves[d].path) by {
                            if d != dest@ {
                                assert(old_view.moves.dom().contains(d));
                            }
                        }
                        assert(self@.moves.dom() =~= old_view.moves.dom().insert(dest@));
                        if old_view.moves.dom().contains(dest@) {
                            assert(self@.moves.dom() =~= old_view.moves.dom());
                        }
                    }
                },
                None => {
                    let ghost sv = source@;
                    self.first_moves.push((source.clone(), dest.to_string()));
                    proof {
                        assert(self@.first_moves =~= old_view.first_moves.push((sv, dest@)));
                        assert(first_dest_of(old_view.first_moves, file_key(sv)) is None);
                        assert forall|a: int, b: int| 0 <= a < b < self@.first_moves.len() implies file_key(
                            self@.first_moves[a].0,
                        ) != file_key(self@.first_moves[b].0) by {
                            if b == old_view.first_moves.len() {
                                assert(!has_first(old_view.first_moves, file_key(sv), a));
                            }
                        }
                        assert(self@ =~= old_view.after_move(source@, dest@));
                        assert forall|d: Seq<char>| #[trigger] self@.moves.dom().contains(d) implies first_dest_of(
                            self@.first_moves,
                            file_key(self@.moves[d]),
                        ) == Some(self@.moves[d].path) by {
                            let k = file_key(self@.moves[d]);
                            let j = choose|j: int| has_first(old_view.first_moves, k, j);
                            assert(has_first(old_view.first_moves, k, j));
                            assert(has_first(self@.first_moves, k, j));
                            lemma_first_dest_unique(old_view.first_moves, k, j);
                            lemma_first_dest_unique(self@.first_moves, k, j);
                        }
                    }
                },
            }
        } else {
            proof {
                lemma_file_views_insert(self.moves@, dest@, *source);
                self.moves.lemma_entries();
            }
            self.moves.insert(dest.to_string(), source.clone());
            proof {
                self.moves.lemma_entries();
                assert(self@ =~= old_view.after_move(source@, dest@));
                assert(self@.moves.dom() =~= old_view.moves.dom().insert(dest@));
                if old_view.moves.dom().contains(dest@) {
                    assert(self@.moves.dom() =~= old_view.moves.dom());
                }
            }
        }
    }
}

/// Asking for a copy at a path that receives none yet adds that path to the destinations,
/// lands the source there, and leaves what lands elsewhere as it was, in either kind of plan.
pub proof fn lemma_after_move_lands(p: PlanView, source: FileView, dest: Seq<char>)
    requires
        p.consistent(),
        !p.destinations().contains(dest),
    ensures
        p.after_move(source, dest).destinations() == p.destinations().insert(dest),
        p.after_move(source, dest).landed(dest) == Some(without_path(source)),
        forall|d: Seq<char>| d != dest ==> p.after_move(source, dest).landed(d) == p.landed(d),
{
    let q = p.after_move(source, dest);
    assert(!p.moves.dom().contains(dest));
    assert(first_landing(p.first_moves, dest) is None);
    if q.first_moves.len() > p.first_moves.len() {
        assert(q.first_moves.drop_last() =~= p.first_moves);
        assert forall|d: Seq<char>| d != dest implies first_landing(q.first_moves, d)
            == first_landing(p.first_moves, d) by {
            assert(q.first_moves.drop_last() =~= p.first_moves);
        }
    } else {
        assert(q.first_moves == p.first_moves);
    }
    assert(q.destinations() =~= p.destinations().insert(dest));
    assert(without_path(FileView { path: q.moves[dest].path, ..source }) =~= without_path(source));
}

/// Whether later destinations copy from the first one changes neither which paths receive
/// copies nor what lands at each: two plans, one of each kind, that agree on both keep
/// agreeing when asked for the same copy at a path that receives none yet.
pub proof fn lemma_first_copies_same_outcome(
    direct: PlanView,
    via_first: PlanView,
    source: FileView,
    dest: Seq<char>,
)
    requires
        direct.consistent(),
        via_first.consistent(),
        !direct.use_first,
        via_first.use_first,
        direct.destinations() == via_first.destinations(),
        forall|d: Seq<char>| direct.landed(d) == via_first.landed(d),
        !direct.destinations().contains(dest),
    ensures
        direct.after_move(source, dest).destinations() == via_first.after_move(
            source,
            dest,
        ).destinations(),
        forall|d: Seq<char>|
            direct.after_move(source, dest).landed(d) == via_first.after_move(source, dest).landed(
                d,
            ),
{
    lemma_after_move_lands(direct, source, dest);
    lemma_after_move_lands(via_first, source, dest);
    assert forall|d: Seq<char>|
        direct.after_move(source, dest).landed(d) == via_first.after_move(source, dest).landed(
            d,
        ) by {
        if d != dest {
            assert(direct.landed(d) == via_first.landed(d));
        }
    }
}

/// Asking for copies keeps a plan consistent.
pub proof fn lemma_after_move_consistent(p: PlanView, source: FileView, dest: Seq<char>)
    requires
        p.consistent(),
    ensures
        p.after_move(source, dest).consistent(),
{
    let q = p.after_move(source, dest);
    if p.use_first {
        match first_dest_of(p.first_moves, file_key(source)) {
            Some(fd) => {
                assert forall|d: Seq<char>| #[trigger] q.moves.dom().contains(d) implies first_dest_of(
                    q.first_moves,
                    file_key(q.moves[d]),
                ) == Some(q.moves[d].path) by {
                    if d != dest {
                        assert(p.moves.dom().contains(d));
                    }
                }
            },
            None => {
                assert forall|a: int, b: int| 0 <= a < b < q.first_moves.len() implies file_key(
                    q.first_moves[a].0,
                ) != file_key(q.first_moves[b].0) by {
                    if b == p.first_moves.len() {
                        if file_key(q.first_moves[a].0) == file_key(source) {
                            assert(has_first(p.first_moves, file_key(source), a));
                        }
                    }
                }
                assert forall|d: Seq<char>| #[trigger] q.moves.dom().contains(d) implies first_dest_of(
                    q.first_moves,
                    file_key(q.moves[d]),
                ) == Some(q.moves[d].path) by {
                    let k = file_key(q.moves[d]);
                    let j = choose|j: int| has_first(p.first_moves, k, j);
                    assert(has_first(p.first_moves, k, j));
                    assert(has_first(q.first_moves, k, j));
                    lemma_first_dest_unique(p.first_moves, k, j);
                    lemma_first_dest_unique(q.first_moves, k, j);
                }
            },
        }
    }
}

/// Asking for a copy adds at most one copy.
pub proof fn lemma_after_move_count(p: PlanView, source: FileView, dest: Seq<char>)
    requires
        p.moves.dom().finite(),
    ensures
        p.after_move(source, dest).moves.dom().finite(),
        p.after_move(source, dest).count() <= p.count() + 1,
{
    let q = p.after_move(source, dest);
    if q.moves != p.moves {
        assert(q.moves.dom() =~= p.moves.dom().insert(dest));
    }
}

impl Plan {
    /// The first copies, as (file, destination), in the order they were asked for.
    pub fn get_first_moves(&self) -> (res: Vec<(&FileInfo, &String)>)
        ensures
            res@.len() == self@.first_moves.len(),
            forall|i: int| 0 <= i < res@.len() ==> ((#[trigger] res@[i]).0@, res@[i].1@) == self@.first_moves[i],
    {
        let mut res: Vec<(&FileInfo, &String)> = Vec::new();
        let mut i: usize = 0;
        while i < self.first_moves.len()
            invariant
                i <= self.first_moves@.len(),
                res@.len() == i,
                forall|j: int| 0 <= j < i ==> ((#[trigger] res@[j]).0@, res@[j].1@) == self@.first_moves[j],
            decreases self.first_moves.len() - i,
        {
            let e = &self.first_moves[i];
            res.push((&e.0, &e.1));
            i = i + 1;
        }
        res
    }

    /// The other copies, as (file to read, destination), each destination once.
    pub fn get_secondary_moves(&self) -> (res: Vec<(&FileInfo, &String)>)
        requires
            self.wf(),
        ensures
            res@.len() == self@.moves.dom().len(),
            forall|i: int| 0 <= i < res@.len() ==> self@.moves.dom().contains((#[trigger] res@[i]).1@) && self@.moves[res@[i].1@] == res@[i].0@,
            forall|i: int, j: int| 0 <= i < j < res@.len() ==> res@[i].1@ != res@[j].1@,
    {
        proof {
            self.moves.lemma_entries();
            assert(file_views(self.moves@).dom() =~= self.moves@.dom());
        }
        let n = self.moves.len();
        let mut res: Vec<(&FileInfo, &String)> = Vec::new();
        let mut i: usize = 0;
        while i < n
            invariant
                i <= n,
                n == self.moves.entries().len(),
                self.moves.wf(),
                keys_distinct(self.moves.entries()),
                entries_map(self.moves.entries()) == self.moves@,
                res@.len() == i,
                forall|j: int| 0 <= j < i ==> *(#[trigger] res@[j]).0 == self.moves.entries()[j].1 && *res@[j].1 == self.moves.entries()[j].0,
            decreases n - i,
        {
            let (k, v) = self.moves.entry(i);
            res.push((v, k));
            i = i + 1;
        }
        proof {
            assert forall|j: int| 0 <= j < res@.len() implies self@.moves.dom().contains((#[trigger] res@[j]).1@) && self@.moves[res@[j].1@] == res@[j].0@ by {
                lemma_entries_map_value(self.moves.entries(), j);
            }
        }
        res
    }

    /// The copies to make, pass by pass. Copying directly, one pass makes every copy.
    /// Copying from the first destination, the first copies come first, and the others,
    /// which read the first copies, in a second pass, if there are any.
    pub fn copy_passes(&self) -> (res: Vec<CopyPass>)
        requires
            self.wf(),
        ensures
            !self@.use_first ==> res@.len() == 1 && res@[0].label == PassLabel::Only && lists_moves(res@[0].jobs@, self@.moves),
            self@.use_first && self@.moves.dom().len() == 0 ==> res@.len() == 1 && res@[0].label == PassLabel::Only
                && lists_first(res@[0].jobs@, self@.first_moves),
            self@.use_first && self@.moves.dom().len() > 0 ==> res@.len() == 2 && res@[0].label == PassLabel::First
                && lists_first(res@[0].jobs@, self@.first_moves) && res@[1].label == PassLabel::Second
                && lists_moves(res@[1].jobs@, self@.moves),
    {
        let mut passes: Vec<CopyPass> = Vec::new();
        if self.use_first_moves {
            let first = self.first_jobs();
            if self.moves.len() == 0 {
                proof {
                    assert(file_views(self.moves@).dom() =~= self.moves@.dom());
                }
                passes.push(CopyPass { label: PassLabel::Only, jobs: first });
            } else {
                proof {
                    assert(file_views(self.moves@).dom() =~= self.moves@.dom());
                }
                passes.push(CopyPass { label: PassLabel::First, jobs: first });
                passes.push(CopyPass { label: PassLabel::Second, jobs: self.secondary_jobs() });
            }
        } else {
            passes.push(CopyPass { label: PassLabel::Only, jobs: self.secondary_jobs() });
        }
        passes
    }

    fn first_jobs(&self) -> (res: Vec<(String, String)>)
        ensures
            lists_first(res@, self@.first_moves),
    {
        let moves = self.get_first_moves();
        let mut res: Vec<(String, String)> = Vec::new();
        let mut i: usize = 0;
        while i < moves.len()
            invariant
                i <= moves@.len(),
                moves@.len() == self@.first_moves.len(),
                forall|j: int| 0 <= j < moves@.len() ==> ((#[trigger] moves@[j]).0@, moves@[j].1@) == self@.first_moves[j],
                res@.len() == i,
                forall|j: int| 0 <= j < i ==> (#[trigger] res@[j]).0@ == self@.first_moves[j].0.path && res@[j].1@ == self@.first_moves[j].1,
            decreases moves.len() - i,
        {
            let (f, d) = moves[i];
            assert((f@, d@) == self@.first_moves[i as int]);
            res.push((f.path.clone(), d.clone()));
            i = i + 1;
        }
        res
    }

    fn secondary_jobs(&self) -> (res: Vec<(String, String)>)
        requires
            self.wf(),
        ensures
            lists_moves(res@, self@.moves),
    {
        let moves = self.get_secondary_moves();
        let mut res: Vec<(String, String)> = Vec::new();
        let mut i: usize = 0;
        while i < moves.len()
            invariant
                i <= moves@.len(),
                moves@.len() == self@.moves.dom().len(),
                forall|j: int| 0 <= j < moves@.len() ==> self@.moves.dom().contains((#[trigger] moves@[j]).1@) && self@.moves[moves@[j].1@] == moves@[j].0@,
                forall|a: int, b: int| 0 <= a < b < moves@.len() ==> moves@[a].1@ != moves@[b].1@,
                res@.len() == i,
                forall|j: int| 0 <= j < i ==> (#[trigger] res@[j]).0@ == moves@[j].0.path@ && res@[j].1@ == moves@[j].1@,
            decreases moves.len() - i,
        {
            let (f, d) = moves[i];
            res.push((f.path.clone(), d.clone()));
            i = i + 1;
        }
        proof {
            assert forall|j: int| 0 <= j < res@.len() implies self@.moves.dom().contains((#[trigger] res@[j]).1@) && self@.moves[res@[j].1@].path == res@[j].0@ by {
                assert(self@.moves[moves@[j].1@] == moves@[j].0@);
            }
            assert forall|a: int, b: int| 0 <= a < b < res@.len() implies res@[a].1@ != res@[b].1@ by {
                assert(res@[a].1@ == moves@[a].1@);
                assert(res@[b].1@ == moves@[b].1@);
            }
        }
        res
    }
}

/// `jobs` lists every copy of the plan once, as (source path, destination), in some order.
pub open spec fn lists_plan(jobs: Seq<(String, String)>, p: PlanView) -> bool {
    exists|first: Seq<(String, String)>, others: Seq<(String, String)>|
        #[trigger] lists_first(first, p.first_moves) && #[trigger] lists_moves(others, p.moves)
            && jobs.to_multiset() == (first + others).to_multiset()
}

impl Plan {
    /// Every copy of the plan, as (source path, destination), in order of source path, then
    /// destination.
    pub fn move_listing(&self) -> (res: Vec<(String, String)>)
        requires
            self.wf(),
        ensures
            pairs_sorted(res@),
            lists_plan(res@, self@),
    {
        let mut jobs = self.first_jobs();
        let mut others = self.secondary_jobs();
        let ghost f = jobs@;
        let ghost o = others@;
        jobs.append(&mut others);
        assert(jobs@ == f + o);
        let res = sort_pairs(jobs);
        assert(lists_first(f, self@.first_moves) && lists_moves(o, self@.moves) && res@.to_multiset() == (f + o).to_multiset());
        res
    }
}

/// Asking for a copy adds its destination to the paths that receive copies, and no other.
pub proof fn lemma_after_move_destinations(p: PlanView, source: FileView, dest: Seq<char>)
    ensures
        p.after_move(source, dest).destinations() == p.destinations().insert(dest),
{
    let q = p.after_move(source, dest);
    if q.first_moves.len() > p.first_moves.len() {
        assert(q.first_moves.drop_last() =~= p.first_moves);
    } else {
        assert(q.first_moves == p.first_moves);
    }
    assert(q.destinations() =~= p.destinations().insert(dest));
}

/// Two plans agree: the same paths receive copies and the same files land at each.
pub open spec fn plans_agree(p: PlanView, q: PlanView) -> bool {
    &&& p.destinations() == q.destinations()
    &&& forall|d: Seq<char>| p.landed(d) == q.landed(d)
}

/// Two consistent plans that agree keep agreeing when asked for the same copy at a path that
/// receives none yet.
pub proof fn lemma_agree_after_move(p: PlanView, q: PlanView, source: FileView, dest: Seq<char>)
    requires
        p.consistent(),
        q.consistent(),
        plans_agree(p, q),
        !p.destinations().contains(dest),
    ensures
        plans_agree(p.after_move(source, dest), q.after_move(source, dest)),
{
    lemma_after_move_lands(p, source, dest);
    lemma_after_move_lands(q, source, dest);
    assert forall|d: Seq<char>|
        p.after_move(source, dest).landed(d) == q.after_move(source, dest).landed(d) by {
        if d != dest {
            assert(p.landed(d) == q.landed(d));
        }
    }
}

/// Asking for a copy at a path that receives none yet adds exactly one copy.
proof fn lemma_after_move_count_fresh(p: PlanView, source: FileView, dest: Seq<char>)
    requires
        p.consistent(),
        !p.destinations().contains(dest),
    ensures
        p.after_move(source, dest).count() == p.count() + 1,
{
    let q = p.after_move(source, dest);
    assert(!p.moves.dom().contains(dest));
    if q.first_moves.len() == p.first_moves.len() {
        assert(q.moves.dom() =~= p.moves.dom().insert(dest));
    } else {
        assert(q.moves == p.moves);
    }
}

/// The plan after asking for each copy of `requests`, in turn.
pub open spec fn after_moves(p: PlanView, requests: Seq<(FileView, Seq<char>)>) -> PlanView
    decreases requests.len(),
{
    if requests.len() == 0 {
        p
    } else {
        after_moves(p, requests.drop_last()).after_move(requests.last().0, requests.last().1)
    }
}

/// The destinations that `requests` ask for.
pub open spec fn request_dests(requests: Seq<(FileView, Seq<char>)>) -> Set<Seq<char>> {
    Set::new(|d: Seq<char>| exists|i: int| 0 <= i < requests.len() && #[trigger] requests[i].1 == d)
}

/// No two of `requests` ask for the same destination.
pub open spec fn dests_distinct(requests: Seq<(FileView, Seq<char>)>) -> bool {
    forall|i: int, j: int| 0 <= i < j < requests.len() ==> requests[i].1 != requests[j].1
}

/// A new plan, copying directly or from the first destination.
pub open spec fn new_plan(use_first: bool) -> PlanView {
    PlanView {
        use_first,
        moves: Map::<Seq<char>, FileView>::empty(),
        first_moves: Seq::<(FileView, Seq<char>)>::empty(),
    }
}

/// Copies asked for at distinct paths that receive none yet: each adds one copy and its
/// path, and the plan stays consistent.
pub proof fn lemma_after_fresh_moves(p: PlanView, requests: Seq<(FileView, Seq<char>)>)
    requires
        p.consistent(),
        dests_distinct(requests),
        forall|i: int| 0 <= i < requests.len() ==> !p.destinations().contains(#[trigger] requests[i].1),
    ensures
        after_moves(p, requests).consistent(),
        after_moves(p, requests).count() == p.count() + requests.len(),
        after_moves(p, requests).destinations() == p.destinations() + request_dests(requests),
    decreases requests.len(),
{
    if requests.len() > 0 {
        let rest = requests.drop_last();
        let (source, dest) = requests.last();
        lemma_after_fresh_moves(p, rest);
        let q = after_moves(p, rest);
        assert(!request_dests(rest).contains(dest)) by {
            if request_dests(rest).contains(dest) {
                let i = choose|i: int| 0 <= i < rest.len() && #[trigger] rest[i].1 == dest;
                assert(requests[i].1 == requests[requests.len() - 1].1);
            }
        }
        assert(!p.destinations().contains(requests[requests.len() - 1].1));
        lemma_after_move_count_fresh(q, source, dest);
        lemma_after_move_consistent(q, source, dest);
        lemma_after_move_destinations(q, source, dest);
        assert(request_dests(requests) =~= request_dests(rest).insert(dest)) by {
            assert forall|d: Seq<char>| request_dests(requests).contains(d) implies request_dests(rest).insert(dest).contains(d) by {
                let i = choose|i: int| 0 <= i < requests.len() && #[trigger] requests[i].1 == d;
                if i < requests.len() - 1 {
                    assert(rest[i].1 == d);
                }
            }
            assert forall|d: Seq<char>| request_dests(rest).insert(dest).contains(d) implies request_dests(requests).contains(d) by {
                if d == dest {
                    assert(requests[requests.len() - 1].1 == d);
                } else {
                    let i = choose|i: int| 0 <= i < rest.len() && #[trigger] rest[i].1 == d;
                    assert(requests[i].1 == d);
                }
            }
        }
        assert(q.after_move(source, dest).destinations() =~= p.destinations() + request_dests(requests));
    } else {
        assert(request_dests(requests) =~= Set::empty());
        assert(p.destinations() + request_dests(requests) =~= p.destinations());
    }
}

/// Whether later destinations copy from the first one does not change the final set of
/// copies: a new plan of either kind, asked for the same copies at distinct paths, ends with
/// one copy per request, at exactly the requested paths, and the two plans agree on what
/// lands at each path.
pub proof fn lemma_new_plans_same_copies(requests: Seq<(FileView, Seq<char>)>)
    requires
        dests_distinct(requests),
    ensures
        after_moves(new_plan(false), requests).count() == requests.len(),
        after_moves(new_plan(true), requests).count() == requests.len(),
        after_moves(new_plan(false), requests).destinations() == request_dests(requests),
        after_moves(new_plan(true), requests).destinations() == request_dests(requests),
        plans_agree(after_moves(new_plan(false), requests), after_moves(new_plan(true), requests)),
    decreases requests.len(),
{
    let d = new_plan(false);
    let f = new_plan(true);
    assert(d.destinations() =~= Set::empty());
    assert(f.destinations() =~= Set::empty());
    assert(first_landing(f.first_moves, seq![]) is None);
    lemma_after_fresh_moves(d, requests);
    lemma_after_fresh_moves(f, requests);
    assert(Set::<Seq<char>>::empty() + request_dests(requests) =~= request_dests(requests));
    if requests.len() > 0 {
        let rest = requests.drop_last();
        let (source, dest) = requests.last();
        lemma_new_plans_same_copies(rest);
        lemma_after_fresh_moves(d, rest);
        assert(!request_dests(rest).contains(dest)) by {
            if request_dests(rest).contains(dest) {
                let i = choose|i: int| 0 <= i < rest.len() && #[trigger] rest[i].1 == dest;
                assert(requests[i].1 == requests[requests.len() - 1].1);
            }
        }
        lemma_after_fresh_moves(f, rest);
        assert(Set::<Seq<char>>::empty() + request_dests(rest) =~= request_dests(rest));
        lemma_agree_after_move(after_moves(d, rest), after_moves(f, rest), source, dest);
    } else {
        assert forall|x: Seq<char>| d.landed(x) == f.landed(x) by {
            assert(first_landing(f.first_moves, x) is None);
        }
    }
}

} // verus!
