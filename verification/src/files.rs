//! Source files, their groups, and where a destination puts them.
use vstd::prelude::*;

use crate::clock::{format_at, local_offset, offset_ok, strftime_at, strftime_rejects};
use crate::matcher::{
    compile, finds, named_group, regex_accepts, regex_finds, regex_group, FileMatcher,
};
use crate::pathmap::str_eq;
use crate::paths::{
    file_name_of, parent_of, path_file_name, path_fname, path_parent, path_pushed,
    path_with_push,
};
use crate::text::{
    chars_eq, chars_of, decimal, decimal_chars, find_char, first_index, lemma_first_index,
    replace_all, replace_str, slice_chars, string_of, trim_start, trim_start_char,
};
use crate::util::{expand_home, expand_homedir};

verus! {

/// The values that name a file in a destination pattern.
#[verifier::ext_equal]
pub struct FormatArgsView {
    pub name: Seq<char>,
    pub parent: Seq<char>,
    pub extensions: Seq<char>,
}

/// The values that name a file in a destination pattern: `{name}`, `{parent}` and
/// `{extensions}`.
pub struct FileFormatArgs {
    pub name: String,
    pub parent: String,
    pub extensions: String,
}

impl View for FileFormatArgs {
    type V = FormatArgsView;

    open spec fn view(&self) -> FormatArgsView {
        FormatArgsView { name: self.name@, parent: self.parent@, extensions: self.extensions@ }
    }
}

impl Clone for FileFormatArgs {
    fn clone(&self) -> (res: Self)
        ensures
            res@ == self@,
    {
        FileFormatArgs {
            name: self.name.clone(),
            parent: self.parent.clone(),
            extensions: self.extensions.clone(),
        }
    }
}

/// The characters of a string literal.
pub open spec fn lit_name() -> Seq<char> {
    seq!['n', 'a', 'm', 'e']
}

pub open spec fn lit_parent() -> Seq<char> {
    seq!['p', 'a', 'r', 'e', 'n', 't']
}

pub open spec fn lit_extensions() -> Seq<char> {
    seq!['e', 'x', 't', 'e', 'n', 's', 'i', 'o', 'n', 's']
}

/// `{` + `key` + `}`: how a value is written in a file pattern.
pub open spec fn placeholder(key: Seq<char>) -> Seq<char> {
    seq!['{'] + key + seq!['}']
}

/// A file name split at its first `.`: the part before it, and the part after it
/// without leading dots. A name without a dot has no extensions.
pub open spec fn split_file_name(file_name: Seq<char>) -> (Seq<char>, Seq<char>) {
    match first_index(file_name, '.') {
        Some(i) => (file_name.take(i), trim_start(file_name.skip(i + 1), '.')),
        None => (file_name, seq![]),
    }
}

/// The file name of `path` and, where it has a parent, the file name of the parent exist.
pub open spec fn names_readable(path: Seq<char>) -> bool {
    &&& path_file_name(path) is Some
    &&& (path_parent(path) matches Some(q) ==> path_file_name(q) is Some)
}

/// The name of the directory that holds `path`; empty where the path has no parent.
pub open spec fn parent_name(path: Seq<char>) -> Seq<char> {
    match path_parent(path) {
        Some(q) => path_file_name(q).unwrap(),
        None => seq![],
    }
}

/// The captured text where there is one, else the default.
pub open spec fn captured_or(capture: Option<Seq<char>>, default: Seq<char>) -> Seq<char> {
    match capture {
        Some(c) => c,
        None => default,
    }
}

/// The pattern of an optional matcher.
pub open spec fn matcher_source(m: Option<FileMatcher>) -> Option<Seq<char>> {
    match m {
        Some(m) => Some(m.source()),
        None => None,
    }
}

/// The format values of the file at `path`. Name and extensions come from the file name,
/// split at its first dot, and parent from the name of its directory. With a pattern, a
/// file name the pattern does not match gives none, and the named groups `name`, `parent`
/// and `extensions` of the match take the place of the values they name. Extensions never
/// start with a dot.
pub open spec fn spec_format_args(path: Seq<char>, pattern: Option<Seq<char>>) -> Option<
    FormatArgsView,
> {
    let file_name = path_file_name(path).unwrap();
    let (name, extensions) = split_file_name(file_name);
    let parent = parent_name(path);
    match pattern {
        None => Some(
            FormatArgsView { name, parent, extensions: trim_start(extensions, '.') },
        ),
        Some(p) => if regex_finds(p, file_name) {
            Some(
                FormatArgsView {
                    name: captured_or(regex_group(p, file_name, lit_name()), name),
                    parent: captured_or(regex_group(p, file_name, lit_parent()), parent),
                    extensions: trim_start(
                        captured_or(regex_group(p, file_name, lit_extensions()), extensions),
                        '.',
                    ),
                },
            )
        } else {
            None
        },
    }
}

/// `pattern` with the file's values in place of `{name}`, `{parent}`, `{suffix}` and
/// `{extensions}`, replaced in that order.
pub open spec fn format_name(args: FormatArgsView, pattern: Seq<char>, suffix: Seq<char>) -> Seq<
    char,
> {
    replace_all(
        replace_all(
            replace_all(
                replace_all(pattern, placeholder(lit_name()), args.name),
                placeholder(lit_parent()),
                args.parent,
            ),
            placeholder(seq!['s', 'u', 'f', 'f', 'i', 'x']),
            suffix,
        ),
        placeholder(lit_extensions()),
        args.extensions,
    )
}

fn group_or(m: &FileMatcher, file_name: &String, key: &str, default: String) -> (res: String)
    ensures
        res@ == captured_or(regex_group(m.source(), file_name@, key@), default@),
{
    match named_group(m, file_name.as_str(), key) {
        Some(g) => g,
        None => default,
    }
}

impl FileFormatArgs {
    /// The format values of the file at `p`, as `spec_format_args` says.
    pub fn new(p: &str, file_matcher: &Option<FileMatcher>) -> (res: Option<Self>)
        requires
            names_readable(p@),
        ensures
            match res {
                Some(a) => spec_format_args(p@, matcher_source(*file_matcher)) == Some(a@),
                None => spec_format_args(p@, matcher_source(*file_matcher)) is None,
            },
    {
        let file_name = path_fname(p);
        let parent = match parent_of(p) {
            Some(q) => path_fname(q.as_str()),
            None => String::new(),
        };
        let chars = chars_of(file_name.as_str());
        let (name, extensions) = match find_char(&chars, '.', 0) {
            Some(i) => {
                proof {
                    lemma_first_index(chars@, '.', i as int);
                    assert(chars@.skip(i + 1) =~= chars@.subrange(i + 1, chars@.len() as int));
                    assert(chars@.take(i as int) =~= chars@.subrange(0, i as int));
                }
                let before = slice_chars(&chars, 0, i);
                let after = slice_chars(&chars, i + 1, chars.len());
                (string_of(before.as_slice()), string_of(trim_start_char(&after, '.').as_slice()))
            },
            None => {
                proof {
                    assert(!chars@.contains('.'));
                }
                (string_of(chars.as_slice()), String::new())
            },
        };
        assert(name@ == split_file_name(file_name@).0);
        assert(extensions@ == split_file_name(file_name@).1);
        assert(parent@ == parent_name(p@));
        match file_matcher {
            None => {
                let ext = chars_of(extensions.as_str());
                let res = FileFormatArgs {
                    name,
                    parent,
                    extensions: string_of(trim_start_char(&ext, '.').as_slice()),
                };
                assert(res@ =~= spec_format_args(p@, None).unwrap());
                Some(res)
            },
            Some(m) => {
                if !finds(m, file_name.as_str()) {
                    return None;
                }
                proof {
                    reveal_strlit("name");
                    reveal_strlit("parent");
                    reveal_strlit("extensions");
                    assert("name"@ =~= lit_name());
                    assert("parent"@ =~= lit_parent());
                    assert("extensions"@ =~= lit_extensions());
                }
                let name = group_or(m, &file_name, "name", name);
                let parent = group_or(m, &file_name, "parent", parent);
                let extensions = group_or(m, &file_name, "extensions", extensions);
                let ext = chars_of(extensions.as_str());
                let res = FileFormatArgs {
                    name,
                    parent,
                    extensions: string_of(trim_start_char(&ext, '.').as_slice()),
                };
                assert(res@ =~= spec_format_args(p@, Some(m.source())).unwrap());
                Some(res)
            },
        }
    }

    /// `s` with this file's values and `suffix` put in, as `format_name` says.
    pub fn format(&self, s: &str, suffix: &str) -> (res: String)
        ensures
            res@ == format_name(self@, s@, suffix@),
    {
        let name_key: Vec<char> = vec!['{', 'n', 'a', 'm', 'e', '}'];
        let parent_key: Vec<char> = vec!['{', 'p', 'a', 'r', 'e', 'n', 't', '}'];
        let suffix_key: Vec<char> = vec!['{', 's', 'u', 'f', 'f', 'i', 'x', '}'];
        let ext_key: Vec<char> = vec!['{', 'e', 'x', 't', 'e', 'n', 's', 'i', 'o', 'n', 's', '}'];
        proof {
            assert(name_key@ =~= placeholder(lit_name()));
            assert(parent_key@ =~= placeholder(lit_parent()));
            assert(suffix_key@ =~= placeholder(seq!['s', 'u', 'f', 'f', 'i', 'x']));
            assert(ext_key@ =~= placeholder(lit_extensions()));
        }
        let text = chars_of(s);
        let step = replace_str(&text, &name_key, &chars_of(self.name.as_str()));
        let step = replace_str(&step, &parent_key, &chars_of(self.parent.as_str()));
        let step = replace_str(&step, &suffix_key, &chars_of(suffix));
        let step = replace_str(&step, &ext_key, &chars_of(self.extensions.as_str()));
        string_of(step.as_slice())
    }
}

/// What a file is to the planner.
#[verifier::ext_equal]
pub struct FileView {
    pub path: Seq<char>,
    pub modified: int,
    pub size: int,
    pub format_args: FormatArgsView,
}

/// A file found in a source or a destination: its path, its modification time in
/// nanoseconds since the Unix epoch, its size in bytes, and its format values.
pub struct FileInfo {
    pub path: String,
    pub modified: i64,
    pub size: u64,
    pub format_args: FileFormatArgs,
}

impl View for FileInfo {
    type V = FileView;

    open spec fn view(&self) -> FileView {
        FileView {
            path: self.path@,
            modified: self.modified as int,
            size: self.size as int,
            format_args: self.format_args@,
        }
    }
}

impl Clone for FileInfo {
    fn clone(&self) -> (res: Self)
        ensures
            res@ == self@,
    {
        FileInfo {
            path: self.path.clone(),
            modified: self.modified,
            size: self.size,
            format_args: self.format_args.clone(),
        }
    }
}

/// Two files are taken to have the same content when they have the same size and the same
/// extensions, and their modification times lie less than ten microseconds apart.
pub open spec fn same_content(a: FileView, b: FileView) -> bool {
    &&& a.size == b.size
    &&& a.format_args.extensions == b.format_args.extensions
    &&& -10_000 < a.modified - b.modified < 10_000
}

/// What identifies a file when it is copied to several destinations: its modification
/// time, name and extensions.
pub open spec fn file_key(f: FileView) -> (int, Seq<char>, Seq<char>) {
    (f.modified, f.format_args.name, f.format_args.extensions)
}

impl FileInfo {
    /// The file at `path` with the given time and size, when its file name (and that of
    /// its directory, where it has one) can be read and `file_matcher`, if any, matches
    /// its file name.
    pub fn from_parts(path: String, modified: i64, size: u64, file_matcher: &Option<FileMatcher>) -> (res:
        Option<FileInfo>)
        ensures
            match res {
                Some(f) => {
                    &&& names_readable(path@)
                    &&& spec_format_args(path@, matcher_source(*file_matcher)) == Some(
                        f.format_args@,
                    )
                    &&& f.path@ == path@
                    &&& f.modified == modified
                    &&& f.size == size
                },
                None => !names_readable(path@) || spec_format_args(
                    path@,
                    matcher_source(*file_matcher),
                ) is None,
            },
    {
        if file_name_of(path.as_str()).is_none() {
            return None;
        }
        match parent_of(path.as_str()) {
            Some(q) => {
                if file_name_of(q.as_str()).is_none() {
                    return None;
                }
            },
            None => {},
        }
        match FileFormatArgs::new(path.as_str(), file_matcher) {
            Some(format_args) => Some(FileInfo { path, modified, size, format_args }),
            None => None,
        }
    }

    /// Whether the two files are taken to have the same content, as `same_content` says.
    pub fn content_matches(&self, other: &Self) -> (res: bool)
        ensures
            res == same_content(self@, other@),
    {
        let delta = self.modified as i128 - other.modified as i128;
        self.size == other.size && str_eq(
            self.format_args.extensions.as_str(),
            other.format_args.extensions.as_str(),
        ) && -10_000 < delta && delta < 10_000
    }

    /// Whether the two files have the same modification time, name and extensions.
    pub fn same_key(&self, other: &Self) -> (res: bool)
        ensures
            res == (file_key(self@) == file_key(other@)),
    {
        self.modified == other.modified && str_eq(
            self.format_args.name.as_str(),
            other.format_args.name.as_str(),
        ) && str_eq(self.format_args.extensions.as_str(), other.format_args.extensions.as_str())
    }
}

/// Why planning could not go on.
#[derive(Debug, Clone, Copy, PartialEq, Eq, Structural)]
pub enum PlanError {
    /// A date pattern of a destination holds an item chrono cannot read.
    TimeFormat,
    /// Files would overwrite different files, and the file pattern has no `{suffix}`.
    NoSuffixPlaceholder,
    /// Every suffix up to `u64::MAX` would overwrite a different file.
    SuffixExhausted,
}

/// A group of files with the same file name prefix, copied together.
pub struct FileGroup {
    pub files: Vec<FileInfo>,
}

/// The views of a sequence of files.
pub open spec fn views_of(files: Seq<FileInfo>) -> Seq<FileView> {
    files.map_values(|f: FileInfo| f@)
}

impl View for FileGroup {
    type V = Seq<FileView>;

    open spec fn view(&self) -> Seq<FileView> {
        views_of(self.files@)
    }
}

/// The earliest modification time among `files`.
pub open spec fn min_modified(files: Seq<FileView>) -> int
    decreases files.len(),
{
    if files.len() <= 1 {
        files[0].modified
    } else {
        let rest = min_modified(files.drop_last());
        if files.last().modified < rest {
            files.last().modified
        } else {
            rest
        }
    }
}

/// The earliest modification time is one of the times and no time is earlier.
pub proof fn lemma_min_modified(files: Seq<FileView>)
    requires
        files.len() > 0,
    ensures
        exists|i: int| 0 <= i < files.len() && files[i].modified == min_modified(files),
        forall|i: int| 0 <= i < files.len() ==> min_modified(files) <= files[i].modified,
    decreases files.len(),
{
    if files.len() > 1 {
        lemma_min_modified(files.drop_last());
        let i = choose|i: int|
            0 <= i < files.drop_last().len() && files.drop_last()[i].modified == min_modified(
                files.drop_last(),
            );
        assert(files[i] == files.drop_last()[i]);
        assert forall|j: int| 0 <= j < files.len() implies min_modified(files)
            <= files[j].modified by {
            if j < files.len() - 1 {
                assert(files[j] == files.drop_last()[j]);
            }
        }
    } else {
        assert(files[0].modified == min_modified(files));
    }
}

/// The text that `{suffix}` stands for: nothing for 0, else `_` and the number.
pub open spec fn suffix_text(suffix: nat) -> Seq<char> {
    if suffix == 0 {
        seq![]
    } else {
        seq!['_'] + decimal(suffix)
    }
}

/// Where a file goes: its name, made from the file pattern, in the directory.
pub open spec fn target_path(dir: Seq<char>, file_format: Seq<char>, f: FileView, suffix: nat) -> Seq<
    char,
> {
    path_pushed(dir, format_name(f.format_args, file_format, suffix_text(suffix)))
}

/// `moves` sends each of `files`, in order, to its target path.
pub open spec fn is_moves(
    moves: Seq<(String, &FileInfo)>,
    files: Seq<FileInfo>,
    dir: Seq<char>,
    file_format: Seq<char>,
    suffix: nat,
) -> bool {
    &&& moves.len() == files.len()
    &&& forall|i: int|
        0 <= i < files.len() ==> (#[trigger] moves[i]).0@ == target_path(
            dir,
            file_format,
            files[i]@,
            suffix,
        ) && *moves[i].1 == files[i]
}

/// The directory and file name pattern that a destination gives one group, its date
/// patterns filled in with the group's time.
pub struct GroupLayout {
    pub dir: String,
    pub file_format: String,
    /// The local UTC offset, in seconds, at which the date patterns were filled in.
    pub offset: i32,
}

/// The directory and file name pattern that the date patterns give a group whose files are
/// `files`, at the UTC offset `offset`: both patterns filled in with the group's earliest
/// modification time.
pub open spec fn layout_at(dir_pattern: Seq<char>, file_pattern: Seq<char>, files: Seq<FileView>, offset: int) -> (
    Seq<char>,
    Seq<char>,
) {
    (
        strftime_at(min_modified(files), offset, dir_pattern),
        strftime_at(min_modified(files), offset, file_pattern),
    )
}

/// `layout` is what the date patterns give the group at some UTC offset (the local one,
/// which depends on the machine's time zone).
pub open spec fn is_layout_of(
    dir_pattern: Seq<char>,
    file_pattern: Seq<char>,
    files: Seq<FileView>,
    layout: (Seq<char>, Seq<char>),
) -> bool {
    exists|o: int| offset_ok(o) && layout == #[trigger] layout_at(dir_pattern, file_pattern, files, o)
}

/// `dir` is what the directory pattern gives the group at some UTC offset.
pub open spec fn is_dir_of(dir_pattern: Seq<char>, files: Seq<FileView>, dir: Seq<char>) -> bool {
    exists|o: int| offset_ok(o) && dir == #[trigger] strftime_at(min_modified(files), o, dir_pattern)
}

/// chrono reads both date patterns.
pub open spec fn patterns_readable(dir_pattern: Seq<char>, file_pattern: Seq<char>) -> bool {
    !strftime_rejects(dir_pattern) && !strftime_rejects(file_pattern)
}

/// A destination: where files go (a date pattern for the directory) and how they are named
/// (a date pattern with `{name}`, `{parent}`, `{suffix}` and `{extensions}`).
pub struct Destination {
    pub dir_pattern: String,
    pub file_pattern: String,
}

/// Where source files are looked for: a glob pattern for directories and a regular
/// expression for file names (empty: every file).
pub struct FilePattern {
    pub dir_pattern: String,
    pub file_regex: String,
}

impl FilePattern {
    /// Replaces `~` in the directory pattern by `home`.
    pub fn expand_paths(&mut self, home: &str)
        ensures
            final(self).dir_pattern@ == expand_home(old(self).dir_pattern@, home@),
            final(self).file_regex == old(self).file_regex,
    {
        self.dir_pattern = expand_homedir(self.dir_pattern.as_str(), home);
    }

    /// The matcher for file names: none for an empty expression or one the regex crate
    /// refuses.
    pub fn file_matcher(&self) -> (res: Option<FileMatcher>)
        ensures
            match res {
                Some(m) => self.file_regex@.len() > 0 && regex_accepts(self.file_regex@)
                    && m.source() == self.file_regex@,
                None => self.file_regex@.len() == 0 || !regex_accepts(self.file_regex@),
            },
    {
        if self.file_regex.as_str().unicode_len() == 0 {
            None
        } else {
            compile(self.file_regex.as_str())
        }
    }
}

impl FileGroup {
    /// A group without files.
    pub fn empty() -> (res: Self)
        ensures
            res.files@.len() == 0,
    {
        FileGroup { files: Vec::new() }
    }

    /// The earliest modification time in the group. For related files (an image and its
    /// sidecar) the image is usually the earlier, and its time is the capture time.
    pub fn get_ts(&self) -> (res: i64)
        requires
            self.files@.len() > 0,
        ensures
            res == min_modified(self@),
    {
        let mut best = self.files[0].modified;
        let mut i: usize = 1;
        assert(self@.take(1).len() == 1);
        assert(min_modified(self@.take(1)) == self@[0].modified);
        while i < self.files.len()
            invariant
                1 <= i <= self.files@.len(),
                best == min_modified(self@.take(i as int)),
            decreases self.files.len() - i,
        {
            assert(self@.take(i + 1).drop_last() =~= self@.take(i as int));
            if self.files[i].modified < best {
                best = self.files[i].modified;
            }
            i = i + 1;
        }
        assert(self@.take(i as int) =~= self@);
        best
    }

    /// The moves of the group's files for a layout and a suffix.
    pub fn moves_in(&self, layout: &GroupLayout, suffix: u64) -> (res: Vec<(String, &FileInfo)>)
        ensures
            is_moves(res@, self.files@, layout.dir@, layout.file_format@, suffix as nat),
    {
        let suffix_str = if suffix == 0 {
            String::new()
        } else {
            let mut t: Vec<char> = vec!['_'];
            let mut digits = decimal_chars(suffix);
            t.append(&mut digits);
            string_of(t.as_slice())
        };
        assert(suffix_str@ =~= suffix_text(suffix as nat));
        let mut res: Vec<(String, &FileInfo)> = Vec::new();
        let mut i: usize = 0;
        while i < self.files.len()
            invariant
                i <= self.files@.len(),
                suffix_str@ == suffix_text(suffix as nat),
                res@.len() == i,
                forall|j: int|
                    0 <= j < i ==> (#[trigger] res@[j]).0@ == target_path(
                        layout.dir@,
                        layout.file_format@,
                        self.files@[j]@,
                        suffix as nat,
                    ) && *res@[j].1 == self.files@[j],
            decreases self.files.len() - i,
        {
            let file = &self.files[i];
            let name = file.format_args.format(layout.file_format.as_str(), suffix_str.as_str());
            res.push((path_with_push(&layout.dir, name.as_str()), file));
            i = i + 1;
        }
        res
    }
}

impl Destination {
    /// Replaces `~` in the directory pattern by `home`.
    pub fn expand_paths(&mut self, home: &str)
        ensures
            final(self).dir_pattern@ == expand_home(old(self).dir_pattern@, home@),
            final(self).file_pattern == old(self).file_pattern,
    {
        self.dir_pattern = expand_homedir(self.dir_pattern.as_str(), home);
    }

    /// The directory and file name pattern for `group`: both date patterns filled in with the
    /// group's earliest time at the local UTC offset of that instant, as `layout_at` says.
    pub fn layout(&self, group: &FileGroup) -> (res: Result<GroupLayout, PlanError>)
        requires
            group.files@.len() > 0,
        ensures
            res is Ok <==> patterns_readable(self.dir_pattern@, self.file_pattern@),
            res matches Err(e) ==> e == PlanError::TimeFormat,
            res matches Ok(l) ==> offset_ok(l.offset as int) && (l.dir@, l.file_format@)
                == layout_at(self.dir_pattern@, self.file_pattern@, group@, l.offset as int),
    {
        let ts = group.get_ts();
        let offset = local_offset(ts);
        let dir = match format_at(ts, offset, self.dir_pattern.as_str()) {
            Some(d) => d,
            None => return Err(PlanError::TimeFormat),
        };
        let file_format = match format_at(ts, offset, self.file_pattern.as_str()) {
            Some(f) => f,
            None => return Err(PlanError::TimeFormat),
        };
        Ok(GroupLayout { dir, file_format, offset })
    }

    /// The directory of each group, in order: the directory pattern filled in with the
    /// group's earliest time at the local UTC offset, as `is_dir_of` says.
    pub fn get_dirs(&self, groups: &[FileGroup]) -> (res: Result<Vec<String>, PlanError>)
        requires
            forall|i: int| 0 <= i < groups@.len() ==> (#[trigger] groups@[i]).files@.len() > 0,
        ensures
            res is Ok <==> groups@.len() == 0 || patterns_readable(
                self.dir_pattern@,
                self.file_pattern@,
            ),
            res matches Ok(v) ==> dirs_of(self.dir_pattern@, groups@, v@),
            res matches Err(e) ==> e == PlanError::TimeFormat,
    {
        let mut dirs: Vec<String> = Vec::new();
        let mut i: usize = 0;
        while i < groups.len()
            invariant
                i <= groups@.len(),
                dirs@.len() == i,
                forall|j: int| 0 <= j < groups@.len() ==> (#[trigger] groups@[j]).files@.len() > 0,
                forall|j: int| 0 <= j < i ==> is_dir_of(self.dir_pattern@, (#[trigger] groups@[j])@, dirs@[j]@),
                i > 0 ==> patterns_readable(self.dir_pattern@, self.file_pattern@),
            decreases groups.len() - i,
        {
            let layout = self.layout(&groups[i])?;
            proof {
                assert(layout.dir@ == strftime_at(min_modified(groups@[i as int]@), layout.offset as int, self.dir_pattern@));
            }
            dirs.push(layout.dir);
            i = i + 1;
        }
        Ok(dirs)
    }
}

/// `dirs` holds, in order, a directory for each group, as `is_dir_of` says.
pub open spec fn dirs_of(dir_pattern: Seq<char>, groups: Seq<FileGroup>, dirs: Seq<String>) -> bool {
    &&& dirs.len() == groups.len()
    &&& forall|j: int| 0 <= j < groups.len() ==> is_dir_of(dir_pattern, (#[trigger] groups[j])@, dirs[j]@)
}

impl FileGroup {
    /// The moves of the group's files under `destination`, with `suffix`: every file goes to
    /// its target path in the layout the destination gives the group, as `layout_at` says.
    pub fn get_moves(&self, destination: &Destination, suffix: u64) -> (res: Result<
        Vec<(String, &FileInfo)>,
        PlanError,
    >)
        requires
            self.files@.len() > 0,
        ensures
            res is Ok <==> patterns_readable(destination.dir_pattern@, destination.file_pattern@),
            res matches Ok(v) ==> exists|o: int|
                offset_ok(o) && is_moves(
                    v@,
                    self.files@,
                    (#[trigger] layout_at(destination.dir_pattern@, destination.file_pattern@, self@, o)).0,
                    layout_at(destination.dir_pattern@, destination.file_pattern@, self@, o).1,
                    suffix as nat,
                ),
            res matches Err(e) ==> e == PlanError::TimeFormat,
    {
        let layout = match destination.layout(self) {
            Ok(l) => l,
            Err(e) => return Err(e),
        };
        let moves = self.moves_in(&layout, suffix);
        let ghost o = layout.offset as int;
        assert(is_moves(moves@, self.files@, layout_at(destination.dir_pattern@, destination.file_pattern@, self@, o).0, layout_at(destination.dir_pattern@, destination.file_pattern@, self@, o).1, suffix as nat));
        Ok(moves)
    }
}

/// The prefix of a file name that groups files (std's `Path::file_prefix`): the name up to
/// the first dot that does not begin it, or the whole name where there is no such dot;
/// `..` is its own prefix.
pub open spec fn file_prefix(name: Seq<char>) -> Seq<char> {
    if name.len() == 0 || name == seq!['.', '.'] {
        name
    } else {
        match first_index(name.skip(1), '.') {
            Some(i) => name.take(i + 1),
            None => name,
        }
    }
}

/// The prefix of a file's name.
pub open spec fn group_key(f: FileView) -> Seq<char> {
    file_prefix(path_file_name(f.path).unwrap())
}

/// The files of `files` whose prefix is `key`, in order.
pub open spec fn with_key(files: Seq<FileInfo>, key: Seq<char>) -> Seq<FileInfo>
    decreases files.len(),
{
    if files.len() == 0 {
        seq![]
    } else if group_key(files.last()@) == key {
        with_key(files.drop_last(), key).push(files.last())
    } else {
        with_key(files.drop_last(), key)
    }
}

/// `groups` splits `files` by prefix: each group holds, in order, the files with one prefix,
/// no two groups share a prefix, and every file is in the group of its prefix.
pub open spec fn is_grouping(groups: Seq<FileGroup>, keys: Seq<Seq<char>>, files: Seq<FileInfo>) -> bool {
    &&& groups.len() == keys.len()
    &&& forall|i: int| 0 <= i < groups.len() ==> (#[trigger] groups[i]).files@ == with_key(files, keys[i])
    &&& forall|i: int| 0 <= i < groups.len() ==> (#[trigger] groups[i]).files@.len() > 0
    &&& forall|i: int, j: int| 0 <= i < j < keys.len() ==> keys[i] != keys[j]
    &&& forall|f: int| 0 <= f < files.len() ==> keys.contains(group_key(#[trigger] files[f]@))
}

/// Every file's path has a file name.
pub open spec fn all_named(files: Seq<FileInfo>) -> bool {
    forall|i: int| 0 <= i < files.len() ==> path_file_name((#[trigger] files[i]).path@) is Some
}

/// The prefix of a file name, as `file_prefix` says.
pub fn file_prefix_of(name: &Vec<char>) -> (res: Vec<char>)
    ensures
        res@ == file_prefix(name@),
{
    if name.len() == 0 || (name.len() == 2 && name[0] == '.' && name[1] == '.') {
        proof {
            if name@.len() == 2 {
                assert(name@ =~= seq!['.', '.']);
            }
        }
        return slice_chars(name, 0, name.len());
    }
    proof {
        assert(name@ != seq!['.', '.']) by {
            if name@ == seq!['.', '.'] {
                assert(name@.len() == 2 && name@[0] == '.' && name@[1] == '.');
            }
        }
    }
    match find_char(name, '.', 1) {
        Some(i) => {
            proof {
                let rest = name@.skip(1);
                assert(crate::text::is_first_index(rest, '.', i as int - 1)) by {
                    assert(rest[i as int - 1] == name@[i as int]);
                    assert forall|j: int| 0 <= j < i - 1 implies rest[j] != '.' by {
                        assert(rest[j] == name@[j + 1]);
                    }
                }
                lemma_first_index(rest, '.', i as int - 1);
                assert(name@.take(i as int) =~= name@.subrange(0, i as int));
            }
            slice_chars(name, 0, i)
        },
        None => {
            proof {
                let rest = name@.skip(1);
                assert(!rest.contains('.')) by {
                    if rest.contains('.') {
                        let j = choose|j: int| 0 <= j < rest.len() && rest[j] == '.';
                        assert(name@[j + 1] == '.');
                    }
                }
                assert(name@.subrange(0, name@.len() as int) =~= name@);
            }
            slice_chars(name, 0, name.len())
        },
    }
}

/// The prefix of each group's first file.
pub open spec fn keys_of(groups: Seq<FileGroup>) -> Seq<Seq<char>> {
    groups.map_values(|g: FileGroup| group_key(g.files@[0]@))
}

/// The prefix of a file's name.
fn key_of(f: &FileInfo) -> (res: Vec<char>)
    requires
        path_file_name(f.path@) is Some,
    ensures
        res@ == group_key(f@),
{
    let name = path_fname(f.path.as_str());
    file_prefix_of(&chars_of(name.as_str()))
}

/// `key` is one of `keys`.
pub open spec fn has_key(keys: Seq<Vec<char>>, key: Seq<char>) -> bool {
    exists|k: int| 0 <= k < keys.len() && keys[k]@ == key
}

fn position_of_key(keys: &Vec<Vec<char>>, key: &Vec<char>) -> (res: Option<usize>)
    ensures
        match res {
            Some(i) => i < keys@.len() && keys@[i as int]@ == key@,
            None => forall|i: int| 0 <= i < keys@.len() ==> keys@[i]@ != key@,
        },
{
    let mut i: usize = 0;
    while i < keys.len()
        invariant
            i <= keys@.len(),
            forall|j: int| 0 <= j < i ==> keys@[j]@ != key@,
        decreases keys.len() - i,
    {
        if chars_eq(&keys[i], key) {
            return Some(i);
        }
        i = i + 1;
    }
    None
}

proof fn lemma_with_key_push(files: Seq<FileInfo>, f: FileInfo, key: Seq<char>)
    ensures
        with_key(files.push(f), key) == if group_key(f@) == key {
            with_key(files, key).push(f)
        } else {
            with_key(files, key)
        },
{
    assert(files.push(f).drop_last() =~= files);
}

/// Splits `files` into groups by the prefix of their file names, as `is_grouping` says; the
/// groups come in the order in which their prefixes first occur.
pub fn get_groups(files: Vec<FileInfo>) -> (res: Vec<FileGroup>)
    requires
        all_named(files@),
    ensures
        is_grouping(res@, keys_of(res@), files@),
{
    let ghost all = files@;
    let mut groups: Vec<FileGroup> = Vec::new();
    let mut keys: Vec<Vec<char>> = Vec::new();
    for f in it: files
        invariant
            it.seq() == all,
            all_named(all),
            groups@.len() == keys@.len(),
            forall|k: int| 0 <= k < groups@.len() ==> (#[trigger] groups@[k]).files@ == with_key(
                all.take(it.index() as int),
                keys@[k]@,
            ),
            forall|k: int| 0 <= k < groups@.len() ==> (#[trigger] groups@[k]).files@.len() > 0,
            forall|k: int| 0 <= k < groups@.len() ==> keys@[k]@ == group_key((#[trigger] groups@[k]).files@[0]@),
            forall|a: int, b: int| 0 <= a < b < keys@.len() ==> keys@[a]@ != keys@[b]@,
            forall|j: int| 0 <= j < it.index() ==> has_key(keys@, group_key(#[trigger] all[j]@)),
    {
        let ghost n = it.index() as int;
        assert(all[n] == f);
        let key = key_of(&f);
        let ghost before = all.take(n);
        assert(all.take(n + 1) =~= before.push(f));
        let ghost old_groups = groups@;
        let ghost old_keys = keys@;
        match position_of_key(&keys, &key) {
            Some(k) => {
                let mut group = FileGroup::empty();
                groups.set_and_swap(k, &mut group);
                group.files.push(f);
                groups.set_and_swap(k, &mut group);
                proof {
                    assert forall|m: int| 0 <= m < groups@.len() implies (#[trigger] groups@[m]).files@ == with_key(
                        all.take(n + 1),
                        keys@[m]@,
                    ) by {
                        lemma_with_key_push(before, f, keys@[m]@);
                        if m != k {
                            assert(keys@[m]@ != key@);
                        }
                    }
                    assert forall|m: int| 0 <= m < groups@.len() implies keys@[m]@ == group_key((#[trigger] groups@[m]).files@[0]@) by {
                        assert(old_groups[m].files@.len() > 0);
                        if m == k {
                            assert(groups@[m].files@[0] == old_groups[m].files@[0]);
                        }
                    }
                    assert forall|j: int| 0 <= j < n + 1 implies has_key(keys@, group_key(#[trigger] all[j]@)) by {
                        if j == n {
                            assert(keys@[k as int]@ == group_key(all[j]@));
                        } else {
                            assert(has_key(old_keys, group_key(all[j]@)));
                        }
                    }
                }
            },
            None => {
                let mut files_of_group: Vec<FileInfo> = Vec::new();
                files_of_group.push(f);
                groups.push(FileGroup { files: files_of_group });
                keys.push(key);
                proof {
                    let last = groups@.len() - 1;
                    assert forall|m: int| 0 <= m < groups@.len() implies (#[trigger] groups@[m]).files@ == with_key(
                        all.take(n + 1),
                        keys@[m]@,
                    ) by {
                        lemma_with_key_push(before, f, keys@[m]@);
                        if m == last {
                            assert(with_key(before, key@) =~= Seq::<FileInfo>::empty()) by {
                                lemma_with_key_absent(before, key@);
                            }
                            assert(groups@[m].files@ =~= seq![f]);
                        } else {
                            assert(old_keys[m] == keys@[m]);
                            assert(keys@[m]@ != key@);
                        }
                    }
                    assert forall|j: int| 0 <= j < n + 1 implies has_key(keys@, group_key(#[trigger] all[j]@)) by {
                        if j == n {
                            assert(keys@[last]@ == group_key(all[j]@));
                        } else {
                            assert(has_key(old_keys, group_key(all[j]@)));
                            let m = choose|m: int| 0 <= m < old_keys.len() && old_keys[m]@ == group_key(all[j]@);
                            assert(keys@[m] == old_keys[m]);
                        }
                    }
                }
            },
        }
    }
    proof {
        assert(all.take(all.len() as int) =~= all);
        assert forall|k: int| 0 <= k < groups@.len() implies keys_of(groups@)[k] == keys@[k]@ by {
        }
        let ks = keys_of(groups@);
        assert forall|j: int| 0 <= j < all.len() implies ks.contains(group_key(#[trigger] all[j]@)) by {
            assert(has_key(keys@, group_key(all[j]@)));
            let m = choose|m: int| 0 <= m < keys@.len() && keys@[m]@ == group_key(all[j]@);
            assert(ks[m] == keys@[m]@);
        }
        assert forall|i: int| 0 <= i < groups@.len() implies equal((#[trigger] groups@[i]).files@, with_key(all, keys_of(groups@)[i])) by {
            assert(groups@[i].files@ =~= with_key(all, keys_of(groups@)[i]));
        }
        assert(is_grouping(groups@, keys_of(groups@), all));
    }
    groups
}

/// Where no file has `key`, no file is picked.
proof fn lemma_with_key_absent(files: Seq<FileInfo>, key: Seq<char>)
    requires
        forall|j: int| 0 <= j < files.len() ==> group_key(files[j]@) != key,
    ensures
        with_key(files, key) == Seq::<FileInfo>::empty(),
    decreases files.len(),
{
    if files.len() > 0 {
        lemma_with_key_absent(files.drop_last(), key);
    }
}

/// The file a directory entry (path, modification time, size) stands for, when its names
/// can be read and the pattern, if any, matches its file name.
pub open spec fn entry_file(path: Seq<char>, modified: int, size: int, pattern: Option<Seq<char>>) -> Option<
    FileView,
> {
    if names_readable(path) && spec_format_args(path, pattern) is Some {
        Some(
            FileView {
                path,
                modified,
                size,
                format_args: spec_format_args(path, pattern).unwrap(),
            },
        )
    } else {
        None
    }
}

/// The files that the entries stand for, in order.
pub open spec fn accepted_files(entries: Seq<(String, i64, u64)>, pattern: Option<Seq<char>>) -> Seq<
    FileView,
>
    decreases entries.len(),
{
    if entries.len() == 0 {
        seq![]
    } else {
        let e = entries.last();
        let rest = accepted_files(entries.drop_last(), pattern);
        match entry_file(e.0@, e.1 as int, e.2 as int, pattern) {
            Some(f) => rest.push(f),
            None => rest,
        }
    }
}

/// The groups of the files in one source directory: the entries (path, modification time
/// in nanoseconds since the Unix epoch, size) that stand for files, as `entry_file` says,
/// split by prefix as `is_grouping` says.
pub fn group_entries(entries: Vec<(String, i64, u64)>, file_matcher: &Option<FileMatcher>) -> (res: Vec<
    FileGroup,
>)
    ensures
        exists|files: Seq<FileInfo>|
            views_of(files) == accepted_files(entries@, matcher_source(*file_matcher))
                && #[trigger] is_grouping(res@, keys_of(res@), files),
{
    let ghost all = entries@;
    let ghost pattern = matcher_source(*file_matcher);
    let mut files: Vec<FileInfo> = Vec::new();
    for e in it: entries
        invariant
            it.seq() == all,
            pattern == matcher_source(*file_matcher),
            views_of(files@) == accepted_files(all.take(it.index() as int), pattern),
            all_named(files@),
    {
        let ghost n = it.index() as int;
        assert(all[n] == e);
        assert(all.take(n + 1).drop_last() =~= all.take(n));
        assert(all.take(n + 1).last() == e);
        let (path, modified, size) = e;
        let ghost p = path@;
        match FileInfo::from_parts(path, modified, size, file_matcher) {
            Some(f) => {
                assert(entry_file(p, modified as int, size as int, pattern) == Some(f@));
                files.push(f);
                assert(views_of(files@) =~= accepted_files(all.take(n), pattern).push(f@));
            },
            None => {},
        }
    }
    proof {
        assert(all.take(all.len() as int) =~= all);
    }
    let ghost fs = files@;
    let groups = get_groups(files);
    assert(is_grouping(groups@, keys_of(groups@), fs));
    groups
}

} // verus!
