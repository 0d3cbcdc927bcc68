//! An in-memory file system.
//!
//! Files and directories are kept in lists sorted by path, so that a
//! directory is listed in path order, directories first.

use vstd::prelude::*;
use crate::fs::{Entry, FileSystem, FsError, entry_view};
use crate::text::str_eq;
use vstd::slice::slice_to_vec;
use crate::fs::path::{
    lex_lt, strictly_sorted, spec_parent_of, spec_last_segment, lemma_lex_irreflexive,
    lemma_lex_transitive, lemma_lex_total, path_before,
    parent_of, last_segment,
};

verus! {

/// The paths of a list of files.
pub open spec fn keys(files: Seq<(Seq<char>, Seq<u8>)>) -> Seq<Seq<char>> {
    files.map_values(|e: (Seq<char>, Seq<u8>)| e.0)
}

/// Whether one of `files` is stored under `path`.
pub open spec fn has_key(files: Seq<(Seq<char>, Seq<u8>)>, path: Seq<char>) -> bool {
    exists|i: int| 0 <= i < files.len() && #[trigger] files[i].0 == path
}

/// A position of `files` that is stored under `path`.
pub open spec fn key_index(files: Seq<(Seq<char>, Seq<u8>)>, path: Seq<char>) -> int {
    choose|i: int| 0 <= i < files.len() && #[trigger] files[i].0 == path
}

/// The contents of the file at `path` in `files`, if there is one.
pub open spec fn lookup(files: Seq<(Seq<char>, Seq<u8>)>, path: Seq<char>) -> Option<Seq<u8>> {
    if has_key(files, path) {
        Some(files[key_index(files, path)].1)
    } else {
        None
    }
}

/// The files as a map from path to contents.
pub open spec fn file_map(files: Seq<(Seq<char>, Seq<u8>)>) -> Map<Seq<char>, Seq<u8>> {
    Map::new(|k: Seq<char>| has_key(files, k), |k: Seq<char>| files[key_index(files, k)].1)
}

/// Reading `path` from the files `m`.
pub open spec fn spec_read(m: Map<Seq<char>, Seq<u8>>, path: Seq<char>) -> Result<Seq<u8>, FsError> {
    if m.contains_key(path) {
        Ok(m[path])
    } else {
        Err(FsError::NotFound)
    }
}

/// Writing `data` to `path`: the files afterwards. Directories cannot be
/// written; the parent directory is not checked.
pub open spec fn spec_write(
    m: Map<Seq<char>, Seq<u8>>,
    dirs: Seq<Seq<char>>,
    path: Seq<char>,
    data: Seq<u8>,
) -> Result<Map<Seq<char>, Seq<u8>>, FsError> {
    if spec_is_dir(dirs, path) {
        Err(FsError::IsADirectory)
    } else {
        Ok(m.insert(path, data))
    }
}

/// Removing the file at `path`: the files afterwards.
pub open spec fn spec_remove(m: Map<Seq<char>, Seq<u8>>, path: Seq<char>) -> Result<
    Map<Seq<char>, Seq<u8>>,
    FsError,
> {
    if m.contains_key(path) {
        Ok(m.remove(path))
    } else {
        Err(FsError::NotFound)
    }
}

/// Creating an empty file at `path` unless one exists: the files
/// afterwards. The parent must be a directory.
pub open spec fn spec_touch(m: Map<Seq<char>, Seq<u8>>, dirs: Seq<Seq<char>>, path: Seq<char>) -> Result<
    Map<Seq<char>, Seq<u8>>,
    FsError,
> {
    if spec_is_dir(dirs, path) {
        Err(FsError::IsADirectory)
    } else if !spec_is_dir(dirs, spec_parent_of(path)) {
        Err(FsError::NotFound)
    } else if m.contains_key(path) {
        Ok(m)
    } else {
        Ok(m.insert(path, Seq::empty()))
    }
}

/// Whether `path` names a directory: the root or one of `dirs`.
pub open spec fn spec_is_dir(dirs: Seq<Seq<char>>, path: Seq<char>) -> bool {
    path == seq!['/'] || dirs.contains(path)
}

/// The entries of the directory `path`: its subdirectories, then its
/// files, each in path order.
pub open spec fn spec_entries(
    dirs: Seq<Seq<char>>,
    files: Seq<(Seq<char>, Seq<u8>)>,
    path: Seq<char>,
) -> Seq<(bool, Seq<char>)> {
    dirs.filter_map(
        |d: Seq<char>|
            if spec_parent_of(d) == path {
                Some((true, spec_last_segment(d)))
            } else {
                None
            },
    ) + files.filter_map(
        |f: (Seq<char>, Seq<u8>)|
            if spec_parent_of(f.0) == path {
                Some((false, spec_last_segment(f.0)))
            } else {
                None
            },
    )
}

/// The name `list` shows for an entry: directories end in a slash.
pub open spec fn listed_name(e: (bool, Seq<char>)) -> Seq<char> {
    if e.0 {
        e.1 + seq!['/']
    } else {
        e.1
    }
}

/// With sorted keys, the file at a key is the one stored under it.
proof fn lemma_lookup_index(files: Seq<(Seq<char>, Seq<u8>)>, i: int)
    requires
        strictly_sorted(keys(files)),
        0 <= i < files.len(),
    ensures
        lookup(files, files[i].0) == Some(files[i].1),
{
    let k = files[i].0;
    assert(0 <= i < files.len() && files[i].0 == k);
    let j = key_index(files, k);
    if j != i {
        let ks = keys(files);
        assert(ks[i] == k && ks[j] == k);
        if i < j {
            assert(lex_lt(ks[i], ks[j]));
        } else {
            assert(lex_lt(ks[j], ks[i]));
        }
        lemma_lex_irreflexive(k);
    }
    assert(lookup(files, k) == Some(files[j].1));
}

/// Inserting a path at a position between smaller and larger paths keeps
/// a list sorted.
proof fn lemma_insert_sorted(s: Seq<Seq<char>>, p: int, x: Seq<char>)
    requires
        strictly_sorted(s),
        0 <= p <= s.len(),
        forall|i: int| 0 <= i < p ==> lex_lt(#[trigger] s[i], x),
        forall|i: int| p <= i < s.len() ==> lex_lt(x, #[trigger] s[i]),
    ensures
        strictly_sorted(s.insert(p, x)),
{
    let t = s.insert(p, x);
    assert forall|i: int, j: int| 0 <= i < j < t.len() implies lex_lt(#[trigger] t[i], #[trigger] t[j]) by {
        if j < p {
            assert(t[i] == s[i] && t[j] == s[j]);
        } else if j == p {
            assert(t[i] == s[i]);
        } else if i < p {
            assert(t[i] == s[i] && t[j] == s[j - 1]);
            lemma_lex_transitive(s[i], x, s[j - 1]);
        } else if i == p {
            assert(t[j] == s[j - 1]);
        } else {
            assert(t[i] == s[i - 1] && t[j] == s[j - 1]);
        }
    }
}

/// Removing an entry keeps a list sorted.
proof fn lemma_remove_sorted(s: Seq<Seq<char>>, p: int)
    requires
        strictly_sorted(s),
        0 <= p < s.len(),
    ensures
        strictly_sorted(s.remove(p)),
{
    let t = s.remove(p);
    assert forall|i: int, j: int| 0 <= i < j < t.len() implies lex_lt(#[trigger] t[i], #[trigger] t[j]) by {
        let a = if i < p { i } else { i + 1 };
        let b = if j < p { j } else { j + 1 };
        assert(t[i] == s[a] && t[j] == s[b]);
    }
}

/// A position for `x` in the sorted list `s`, which does not hold it.
proof fn lemma_insert_position(s: Seq<Seq<char>>, p: int, x: Seq<char>)
    requires
        strictly_sorted(s),
        0 <= p <= s.len(),
        !s.contains(x),
        forall|i: int| 0 <= i < p ==> !lex_lt(x, #[trigger] s[i]),
        p < s.len() ==> lex_lt(x, s[p]),
    ensures
        forall|i: int| 0 <= i < p ==> lex_lt(#[trigger] s[i], x),
        forall|i: int| p <= i < s.len() ==> lex_lt(x, #[trigger] s[i]),
{
    assert forall|i: int| 0 <= i < p implies lex_lt(#[trigger] s[i], x) by {
        assert(s[i] != x);
        lemma_lex_total(s[i], x);
    }
    assert forall|i: int| p <= i < s.len() implies lex_lt(x, #[trigger] s[i]) by {
        if i > p {
            lemma_lex_transitive(x, s[p], s[i]);
        }
    }
}

/// Inserting a file stored under a new path adds exactly that file.
proof fn lemma_lookup_insert(files: Seq<(Seq<char>, Seq<u8>)>, p: int, e: (Seq<char>, Seq<u8>))
    requires
        0 <= p <= files.len(),
        strictly_sorted(keys(files)),
        strictly_sorted(keys(files.insert(p, e))),
        !has_key(files, e.0),
    ensures
        forall|k: Seq<char>|
            #[trigger] lookup(files.insert(p, e), k) == if k == e.0 {
                Some(e.1)
            } else {
                lookup(files, k)
            },
{
    let t = files.insert(p, e);
    assert forall|k: Seq<char>|
        #[trigger] lookup(t, k) == if k == e.0 {
            Some(e.1)
        } else {
            lookup(files, k)
        } by {
        if k == e.0 {
            assert(t[p] == e);
            lemma_lookup_index(t, p);
        } else {
            if has_key(files, k) {
                let j = key_index(files, k);
                lemma_lookup_index(files, j);
                let jj = if j < p { j } else { j + 1 };
                assert(t[jj] == files[j]);
                lemma_lookup_index(t, jj);
            }
            if has_key(t, k) {
                let m = key_index(t, k);
                assert(m != p);
                let mm = if m < p { m } else { m - 1 };
                assert(files[mm] == t[m]);
            }
        }
    }
}

/// Replacing the file stored under a path changes only that file.
proof fn lemma_lookup_update(files: Seq<(Seq<char>, Seq<u8>)>, i: int, e: (Seq<char>, Seq<u8>))
    requires
        0 <= i < files.len(),
        files[i].0 == e.0,
        strictly_sorted(keys(files)),
    ensures
        keys(files.update(i, e)) == keys(files),
        forall|k: Seq<char>|
            #[trigger] lookup(files.update(i, e), k) == if k == e.0 {
                Some(e.1)
            } else {
                lookup(files, k)
            },
{
    let t = files.update(i, e);
    assert(keys(t) =~= keys(files));
    assert forall|k: Seq<char>|
        #[trigger] lookup(t, k) == if k == e.0 {
            Some(e.1)
        } else {
            lookup(files, k)
        } by {
        if k == e.0 {
            lemma_lookup_index(t, i);
        } else {
            if has_key(files, k) {
                let j = key_index(files, k);
                lemma_lookup_index(files, j);
                assert(t[j] == files[j]);
                lemma_lookup_index(t, j);
            }
            if has_key(t, k) {
                let m = key_index(t, k);
                assert(files[m] == t[m]);
            }
        }
    }
}

/// Removing the file stored under a path removes only that file.
proof fn lemma_lookup_remove(files: Seq<(Seq<char>, Seq<u8>)>, i: int)
    requires
        0 <= i < files.len(),
        strictly_sorted(keys(files)),
    ensures
        keys(files.remove(i)) == keys(files).remove(i),
        strictly_sorted(keys(files.remove(i))),
        forall|k: Seq<char>|
            #[trigger] lookup(files.remove(i), k) == if k == files[i].0 {
                None
            } else {
                lookup(files, k)
            },
{
    let t = files.remove(i);
    assert(keys(t) =~= keys(files).remove(i));
    lemma_remove_sorted(keys(files), i);
    assert forall|k: Seq<char>|
        #[trigger] lookup(t, k) == if k == files[i].0 {
            None
        } else {
            lookup(files, k)
        } by {
        if has_key(t, k) {
            let m = key_index(t, k);
            let mm = if m < i { m } else { m + 1 };
            assert(files[mm] == t[m]);
            if k == files[i].0 {
                let ks = keys(files);
                assert(ks[mm] == k && ks[i] == k);
                if mm < i {
                    assert(lex_lt(ks[mm], ks[i]));
                } else {
                    assert(lex_lt(ks[i], ks[mm]));
                }
                lemma_lex_irreflexive(k);
            } else {
                lemma_lookup_index(files, mm);
                lemma_lookup_index(t, m);
            }
        } else if k != files[i].0 && has_key(files, k) {
            let j = key_index(files, k);
            let jj = if j < i { j } else { j - 1 };
            assert(t[jj] == files[j]);
        }
    }
}

/// The map of files after a change that stores `data` under `path`.
proof fn lemma_file_map_insert(
    a: Seq<(Seq<char>, Seq<u8>)>,
    b: Seq<(Seq<char>, Seq<u8>)>,
    path: Seq<char>,
    data: Seq<u8>,
)
    requires
        forall|k: Seq<char>|
            #[trigger] lookup(b, k) == if k == path {
                Some(data)
            } else {
                lookup(a, k)
            },
    ensures
        file_map(b) == file_map(a).insert(path, data),
{
    assert forall|k: Seq<char>| #[trigger] file_map(b).contains_key(k) == file_map(a).insert(
        path,
        data,
    ).contains_key(k) by {
        let _ = lookup(b, k);
    }
    assert forall|k: Seq<char>| #[trigger] file_map(b).contains_key(k) implies file_map(b)[k]
        == file_map(a).insert(path, data)[k] by {
        let _ = lookup(b, k);
    }
    assert(file_map(b) =~= file_map(a).insert(path, data));
}

/// The map of files after a change that drops `path`.
proof fn lemma_file_map_remove(a: Seq<(Seq<char>, Seq<u8>)>, b: Seq<(Seq<char>, Seq<u8>)>, path: Seq<char>)
    requires
        forall|k: Seq<char>|
            #[trigger] lookup(b, k) == if k == path {
                None
            } else {
                lookup(a, k)
            },
    ensures
        file_map(b) == file_map(a).remove(path),
{
    assert forall|k: Seq<char>| #[trigger] file_map(b).contains_key(k) == file_map(a).remove(
        path,
    ).contains_key(k) by {
        let _ = lookup(b, k);
    }
    assert forall|k: Seq<char>| #[trigger] file_map(b).contains_key(k) implies file_map(b)[k]
        == file_map(a).remove(path)[k] by {
        let _ = lookup(b, k);
    }
    assert(file_map(b) =~= file_map(a).remove(path));
}

/// One more element of `s` to filter.
proof fn lemma_filter_map_step<A, B>(s: Seq<A>, i: int, f: spec_fn(A) -> Option<B>)
    requires
        0 <= i < s.len(),
    ensures
        s.take(i + 1).filter_map(f) == s.take(i).filter_map(f) + match f(s[i]) {
            Some(x) => seq![x],
            None => Seq::<B>::empty(),
        },
{
    assert(s.take(i + 1).drop_last() =~= s.take(i));
    assert(s.take(i + 1).last() == s[i]);
    match f(s[i]) {
        Some(x) => {},
        None => {
            assert(s.take(i).filter_map(f) + Seq::<B>::empty() =~= s.take(i).filter_map(f));
        },
    }
}

/// Reading a file gives back what the last write to it stored, and a
/// write to one path leaves every other path reading as before.
pub proof fn law_read_after_write(
    m: Map<Seq<char>, Seq<u8>>,
    dirs: Seq<Seq<char>>,
    path: Seq<char>,
    data: Seq<u8>,
    other: Seq<char>,
)
    ensures
        spec_write(m, dirs, path, data) matches Ok(after) ==> spec_read(after, path) == Ok::<
            Seq<u8>,
            FsError,
        >(data) && (other != path ==> spec_read(after, other) == spec_read(m, other)),
{
}

/// A removed file can no longer be read, and removing it leaves every other
/// path reading as before.
pub proof fn law_read_after_remove(m: Map<Seq<char>, Seq<u8>>, path: Seq<char>, other: Seq<char>)
    ensures
        spec_remove(m, path) matches Ok(after) ==> spec_read(after, path) == Err::<
            Seq<u8>,
            FsError,
        >(FsError::NotFound) && (other != path ==> spec_read(after, other) == spec_read(
            m,
            other,
        )),
{
}

/// Touching a path creates an empty file there, or leaves an existing
/// file's contents as they were.
pub proof fn law_touch_keeps_contents(
    m: Map<Seq<char>, Seq<u8>>,
    dirs: Seq<Seq<char>>,
    path: Seq<char>,
)
    ensures
        spec_touch(m, dirs, path) matches Ok(after) ==> spec_read(after, path) == if m.contains_key(
            path,
        ) {
            spec_read(m, path)
        } else {
            Ok::<Seq<u8>, FsError>(Seq::empty())
        },
{
}

/// An element that passes the filter shows up in the filtered sequence.
proof fn lemma_filter_map_contains<A, B>(s: Seq<A>, f: spec_fn(A) -> Option<B>, j: int)
    requires
        0 <= j < s.len(),
        f(s[j]) is Some,
    ensures
        s.filter_map(f).contains(f(s[j])->Some_0),
    decreases s.len(),
{
    let x = f(s[j])->Some_0;
    let rest = s.drop_last();
    if j == s.len() - 1 {
        assert(s.filter_map(f) == rest.filter_map(f) + seq![x]);
        assert(s.filter_map(f)[rest.filter_map(f).len() as int] == x);
    } else {
        assert(rest[j] == s[j]);
        lemma_filter_map_contains(rest, f, j);
        let k = choose|k: int| 0 <= k < rest.filter_map(f).len() && rest.filter_map(f)[k] == x;
        match f(s.last()) {
            Some(y) => {
                assert(s.filter_map(f) == rest.filter_map(f) + seq![y]);
                assert(s.filter_map(f)[k] == x);
            },
            None => {},
        }
    }
}

/// A directory that exists shows up, by its last segment, in the listing
/// of its parent.
pub proof fn law_directory_listed_in_parent(
    dirs: Seq<Seq<char>>,
    files: Seq<(Seq<char>, Seq<u8>)>,
    path: Seq<char>,
)
    requires
        dirs.contains(path),
    ensures
        spec_entries(dirs, files, spec_parent_of(path)).contains((true, spec_last_segment(path))),
{
    let parent = spec_parent_of(path);
    let fd = |d: Seq<char>|
        if spec_parent_of(d) == parent {
            Some((true, spec_last_segment(d)))
        } else {
            None
        };
    let ff = |f: (Seq<char>, Seq<u8>)|
        if spec_parent_of(f.0) == parent {
            Some((false, spec_last_segment(f.0)))
        } else {
            None
        };
    let j = choose|j: int| 0 <= j < dirs.len() && dirs[j] == path;
    lemma_filter_map_contains(dirs, fd, j);
    let k = choose|k: int|
        0 <= k < dirs.filter_map(fd).len() && dirs.filter_map(fd)[k] == (true, spec_last_segment(
            path,
        ));
    assert(spec_entries(dirs, files, parent) == dirs.filter_map(fd) + files.filter_map(ff));
    assert(spec_entries(dirs, files, parent)[k] == (true, spec_last_segment(path)));
}

/// An in-memory file system: files with their contents, and directories.
pub struct TmpFs {
    files: Vec<(String, Vec<u8>)>,
    dirs: Vec<String>,
}

impl TmpFs {
    /// The files, as paths with contents, in path order.
    pub closed spec fn file_list(&self) -> Seq<(Seq<char>, Seq<u8>)> {
        self.files@.map_values(|e: (String, Vec<u8>)| (e.0@, e.1@))
    }

    /// The directories other than the root, in path order.
    pub closed spec fn dir_list(&self) -> Seq<Seq<char>> {
        self.dirs@.map_values(|d: String| d@)
    }

    /// The files as a map from path to contents.
    pub open spec fn files(&self) -> Map<Seq<char>, Seq<u8>> {
        file_map(self.file_list())
    }

    /// Both lists are sorted by path, so no path occurs twice.
    pub open spec fn wf(&self) -> bool {
        strictly_sorted(self.dir_list()) && strictly_sorted(keys(self.file_list()))
    }

    /// An empty file system: only the root directory.
    pub fn new() -> (r: Self)
        ensures
            r.wf(),
            r.file_list() == Seq::<(Seq<char>, Seq<u8>)>::empty(),
            r.dir_list() == Seq::<Seq<char>>::empty(),
    {
        let r = Self { files: Vec::new(), dirs: Vec::new() };
        assert(r.file_list() =~= Seq::<(Seq<char>, Seq<u8>)>::empty());
        assert(r.dir_list() =~= Seq::<Seq<char>>::empty());
        r
    }

    /// Position of the directory `path` in the directory list.
    fn find_dir(&self, path: &str) -> (r: Option<usize>)
        ensures
            match r {
                Some(i) => i < self.dir_list().len() && self.dir_list()[i as int] == path@,
                None => !self.dir_list().contains(path@),
            },
    {
        let mut i: usize = 0;
        while i < self.dirs.len()
            invariant
                i <= self.dirs@.len(),
                forall|j: int| 0 <= j < i ==> #[trigger] self.dir_list()[j] != path@,
            decreases self.dirs.len() - i,
        {
            if str_eq(self.dirs[i].as_str(), path) {
                return Some(i);
            }
            i = i + 1;
        }
        None
    }

    /// Position of the file `path` in the file list.
    fn find_file(&self, path: &str) -> (r: Option<usize>)
        ensures
            match r {
                Some(i) => i < self.file_list().len() && self.file_list()[i as int].0 == path@,
                None => forall|j: int|
                    0 <= j < self.file_list().len() ==> #[trigger] self.file_list()[j].0 != path@,
            },
    {
        let mut i: usize = 0;
        while i < self.files.len()
            invariant
                i <= self.files@.len(),
                forall|j: int| 0 <= j < i ==> #[trigger] self.file_list()[j].0 != path@,
            decreases self.files.len() - i,
        {
            if str_eq(self.files[i].0.as_str(), path) {
                return Some(i);
            }
            i = i + 1;
        }
        None
    }

    /// Whether `path` names a directory.
    fn is_dir(&self, path: &str) -> (r: bool)
        ensures
            r == spec_is_dir(self.dir_list(), path@),
    {
        proof {
            reveal_strlit("/");
            assert("/"@ =~= seq!['/']);
        }
        if str_eq(path, "/") {
            return true;
        }
        match self.find_dir(path) {
            Some(_) => true,
            None => false,
        }
    }

    /// Create the directory `path`: `AlreadyExists` for the root or an
    /// existing directory or file, `NotFound` when its parent is not a
    /// directory.
    pub fn mkdir(&mut self, path: &str) -> (r: Result<(), FsError>)
        requires
            old(self).wf(),
        ensures
            final(self).wf(),
            final(self).file_list() == old(self).file_list(),
            if spec_is_dir(old(self).dir_list(), path@) || old(self).files().contains_key(path@) {
                r == Err::<(), FsError>(FsError::AlreadyExists) && final(self).dir_list() == old(
                    self,
                ).dir_list()
            } else if !spec_is_dir(old(self).dir_list(), spec_parent_of(path@)) {
                r == Err::<(), FsError>(FsError::NotFound) && final(self).dir_list() == old(
                    self,
                ).dir_list()
            } else {
                r == Ok::<(), FsError>(()) && final(self).dir_list().to_set() == old(
                    self,
                ).dir_list().to_set().insert(path@)
            },
    {
        if self.is_dir(path) {
            return Err(FsError::AlreadyExists);
        }
        match self.find_file(path) {
            Some(i) => {
                proof {
                    lemma_lookup_index(self.file_list(), i as int);
                }
                return Err(FsError::AlreadyExists);
            },
            None => {},
        }
        let parent = parent_of(path);
        if !self.is_dir(parent.as_str()) {
            return Err(FsError::NotFound);
        }
        // Keep the directories sorted.
        let ghost old_dirs = self.dir_list();
        let mut p: usize = 0;
        while p < self.dirs.len() && !path_before(path, self.dirs[p].as_str())
            invariant
                p <= self.dirs@.len(),
                old_dirs == self.dir_list(),
                forall|i: int| 0 <= i < p ==> !lex_lt(path@, #[trigger] old_dirs[i]),
            decreases self.dirs.len() - p,
        {
            p = p + 1;
        }
        proof {
            lemma_insert_position(old_dirs, p as int, path@);
            lemma_insert_sorted(old_dirs, p as int, path@);
        }
        self.dirs.insert(p, String::from_str(path));
        proof {
            assert(self.dir_list() =~= old_dirs.insert(p as int, path@));
            assert(self.dir_list().to_set() =~= old_dirs.to_set().insert(path@)) by {
                assert forall|x: Seq<char>| #[trigger] self.dir_list().contains(x) implies old_dirs.contains(x)
                    || x == path@ by {
                    let k = choose|k: int| 0 <= k < self.dir_list().len() && self.dir_list()[k] == x;
                    if k < p {
                        assert(old_dirs[k] == x);
                    } else if k > p {
                        assert(old_dirs[k - 1] == x);
                    }
                }
                assert forall|x: Seq<char>| old_dirs.contains(x) implies #[trigger] self.dir_list().contains(x) by {
                    let k = choose|k: int| 0 <= k < old_dirs.len() && old_dirs[k] == x;
                    if k < p {
                        assert(self.dir_list()[k] == x);
                    } else {
                        assert(self.dir_list()[k + 1] == x);
                    }
                }
                assert(self.dir_list()[p as int] == path@);
            }
        }
        Ok(())
    }
}

impl TmpFs {
    /// Position at which a file stored under `path`, which is not stored
    /// yet, keeps the files sorted.
    fn file_insert_position(&self, path: &str) -> (r: usize)
        requires
            self.wf(),
            !has_key(self.file_list(), path@),
        ensures
            r <= self.file_list().len(),
            strictly_sorted(keys(self.file_list()).insert(r as int, path@)),
    {
        let ghost ks = keys(self.file_list());
        let mut p: usize = 0;
        while p < self.files.len() && !path_before(path, self.files[p].0.as_str())
            invariant
                p <= self.files@.len(),
                ks == keys(self.file_list()),
                forall|i: int| 0 <= i < p ==> !lex_lt(path@, #[trigger] ks[i]),
            decreases self.files.len() - p,
        {
            p = p + 1;
        }
        proof {
            if ks.contains(path@) {
                let k = choose|k: int| 0 <= k < ks.len() && ks[k] == path@;
                assert(self.file_list()[k].0 == path@);
            }
            lemma_insert_position(ks, p as int, path@);
            lemma_insert_sorted(ks, p as int, path@);
        }
        p
    }

    /// Create an empty file at `path` unless one exists: `IsADirectory` for
    /// a directory, `NotFound` when its parent is not a directory.
    pub fn touch(&mut self, path: &str) -> (r: Result<(), FsError>)
        requires
            old(self).wf(),
        ensures
            final(self).wf(),
            final(self).dir_list() == old(self).dir_list(),
            match spec_touch(old(self).files(), old(self).dir_list(), path@) {
                Ok(m) => r == Ok::<(), FsError>(()) && final(self).files() == m,
                Err(e) => r == Err::<(), FsError>(e) && final(self).files() == old(self).files(),
            },
    {
        if self.is_dir(path) {
            return Err(FsError::IsADirectory);
        }
        let parent = parent_of(path);
        if !self.is_dir(parent.as_str()) {
            return Err(FsError::NotFound);
        }
        match self.find_file(path) {
            Some(i) => {
                proof {
                    lemma_lookup_index(self.file_list(), i as int);
                }
                Ok(())
            },
            None => {
                let p = self.file_insert_position(path);
                let ghost old_files = self.file_list();
                let entry = (String::from_str(path), Vec::new());
                proof {
                    assert(keys(old_files.insert(p as int, (path@, Seq::<u8>::empty())))
                        =~= keys(old_files).insert(p as int, path@));
                }
                self.files.insert(p, entry);
                proof {
                    assert(self.file_list() =~= old_files.insert(
                        p as int,
                        (path@, Seq::<u8>::empty()),
                    ));
                    lemma_lookup_insert(old_files, p as int, (path@, Seq::<u8>::empty()));
                    lemma_file_map_insert(old_files, self.file_list(), path@, Seq::<u8>::empty());
                }
                Ok(())
            },
        }
    }

    /// The entries of the directory `path`: its subdirectories, then its
    /// files, each in path order; `NotFound` when `path` is not a directory.
    pub fn list_entries(&self, path: &str) -> (r: Result<Vec<Entry>, FsError>)
        requires
            self.wf(),
        ensures
            match r {
                Ok(v) => spec_is_dir(self.dir_list(), path@) && v@.map_values(
                    |e: Entry| entry_view(e),
                ) == spec_entries(self.dir_list(), self.file_list(), path@),
                Err(e) => !spec_is_dir(self.dir_list(), path@) && e == FsError::NotFound,
            },
    {
        if !self.is_dir(path) {
            return Err(FsError::NotFound);
        }
        let ghost fd = |d: Seq<char>|
            if spec_parent_of(d) == path@ {
                Some((true, spec_last_segment(d)))
            } else {
                None
            };
        let ghost ff = |f: (Seq<char>, Seq<u8>)|
            if spec_parent_of(f.0) == path@ {
                Some((false, spec_last_segment(f.0)))
            } else {
                None
            };
        let mut entries: Vec<Entry> = Vec::new();
        let mut i: usize = 0;
        while i < self.dirs.len()
            invariant
                i <= self.dirs@.len(),
                entries@.map_values(|e: Entry| entry_view(e)) == self.dir_list().take(
                    i as int,
                ).filter_map(fd),
                fd == (|d: Seq<char>|
                    if spec_parent_of(d) == path@ {
                        Some((true, spec_last_segment(d)))
                    } else {
                        None
                    }),
            decreases self.dirs.len() - i,
        {
            let dir = self.dirs[i].as_str();
            proof {
                lemma_filter_map_step(self.dir_list(), i as int, fd);
            }
            let parent = parent_of(dir);
            if str_eq(parent.as_str(), path) {
                let ghost before = entries@;
                entries.push(Entry::Dir(last_segment(dir)));
                assert(entries@.map_values(|e: Entry| entry_view(e)) =~= before.map_values(
                    |e: Entry| entry_view(e),
                ).push(entry_view(entries@.last())));
            }
            i = i + 1;
        }
        assert(self.dir_list().take(self.dir_list().len() as int) =~= self.dir_list());
        let ghost dir_part = entries@.map_values(|e: Entry| entry_view(e));
        let mut j: usize = 0;
        assert(self.file_list().take(0).filter_map(ff) =~= Seq::<(bool, Seq<char>)>::empty());
        while j < self.files.len()
            invariant
                j <= self.files@.len(),
                dir_part == self.dir_list().filter_map(fd),
                entries@.map_values(|e: Entry| entry_view(e)) == dir_part + self.file_list().take(
                    j as int,
                ).filter_map(ff),
                ff == (|f: (Seq<char>, Seq<u8>)|
                    if spec_parent_of(f.0) == path@ {
                        Some((false, spec_last_segment(f.0)))
                    } else {
                        None
                    }),
            decreases self.files.len() - j,
        {
            let file = self.files[j].0.as_str();
            proof {
                lemma_filter_map_step(self.file_list(), j as int, ff);
            }
            let parent = parent_of(file);
            if str_eq(parent.as_str(), path) {
                let ghost before = entries@;
                entries.push(Entry::File(last_segment(file)));
                assert(entries@.map_values(|e: Entry| entry_view(e)) =~= before.map_values(
                    |e: Entry| entry_view(e),
                ).push(entry_view(entries@.last())));
            } else {
                assert(dir_part + self.file_list().take(j + 1).filter_map(ff) =~= dir_part
                    + self.file_list().take(j as int).filter_map(ff));
            }
            j = j + 1;
        }
        assert(self.file_list().take(self.file_list().len() as int) =~= self.file_list());
        Ok(entries)
    }
}

impl FileSystem for TmpFs {
    open spec fn fs_wf(&self) -> bool {
        self.wf()
    }

    /// The contents of the file at `path`; `NotFound` when there is none.
    fn read(&self, path: &str) -> (r: Result<Vec<u8>, FsError>)
        ensures
            match spec_read(self.files(), path@) {
                Ok(data) => r matches Ok(v) && v@ == data,
                Err(e) => r == Err::<Vec<u8>, FsError>(e),
            },
    {
        match self.find_file(path) {
            Some(i) => {
                proof {
                    lemma_lookup_index(self.file_list(), i as int);
                }
                Ok(slice_to_vec(self.files[i].1.as_slice()))
            },
            None => Err(FsError::NotFound),
        }
    }

    /// Replace the contents of the file at `path`, creating it if needed;
    /// `IsADirectory` for a directory. The parent is not checked.
    fn write(&mut self, path: &str, data: &[u8]) -> (r: Result<(), FsError>)
        ensures
            final(self).dir_list() == old(self).dir_list(),
            match spec_write(old(self).files(), old(self).dir_list(), path@, data@) {
                Ok(m) => r == Ok::<(), FsError>(()) && final(self).files() == m,
                Err(e) => r == Err::<(), FsError>(e) && final(self).files() == old(self).files(),
            },
    {
        if self.is_dir(path) {
            return Err(FsError::IsADirectory);
        }
        let ghost old_files = self.file_list();
        let entry = (String::from_str(path), slice_to_vec(data));
        match self.find_file(path) {
            Some(i) => {
                proof {
                    lemma_lookup_update(old_files, i as int, (path@, data@));
                }
                self.files.set(i, entry);
                proof {
                    assert(self.file_list() =~= old_files.update(i as int, (path@, data@)));
                    lemma_file_map_insert(old_files, self.file_list(), path@, data@);
                }
            },
            None => {
                let p = self.file_insert_position(path);
                proof {
                    assert(keys(old_files.insert(p as int, (path@, data@))) =~= keys(
                        old_files,
                    ).insert(p as int, path@));
                }
                self.files.insert(p, entry);
                proof {
                    assert(self.file_list() =~= old_files.insert(p as int, (path@, data@)));
                    lemma_lookup_insert(old_files, p as int, (path@, data@));
                    lemma_file_map_insert(old_files, self.file_list(), path@, data@);
                }
            },
        }
        Ok(())
    }

    /// The names in the directory at `path`, in the order of
    /// [`TmpFs::list_entries`]; directory names end in a slash.
    fn list(&self, path: &str) -> (r: Result<Vec<String>, FsError>)
        ensures
            match r {
                Ok(v) => spec_is_dir(self.dir_list(), path@) && v@.map_values(|s: String| s@)
                    == spec_entries(self.dir_list(), self.file_list(), path@).map_values(
                    |e: (bool, Seq<char>)| listed_name(e),
                ),
                Err(e) => !spec_is_dir(self.dir_list(), path@) && e == FsError::NotFound,
            },
    {
        let entries = match self.list_entries(path) {
            Ok(entries) => entries,
            Err(e) => return Err(e),
        };
        proof {
            reveal_strlit("/");
            assert("/"@ =~= seq!['/']);
        }
        let ghost listed = entries@.map_values(|e: Entry| entry_view(e));
        let mut names: Vec<String> = Vec::new();
        let mut i: usize = 0;
        while i < entries.len()
            invariant
                i <= entries@.len(),
                listed == entries@.map_values(|e: Entry| entry_view(e)),
                "/"@ == seq!['/'],
                names@.map_values(|s: String| s@) == listed.take(i as int).map_values(
                    |e: (bool, Seq<char>)| listed_name(e),
                ),
            decreases entries.len() - i,
        {
            let name = match &entries[i] {
                Entry::File(name) => name.clone(),
                Entry::Dir(name) => name.clone().concat("/"),
            };
            assert(name@ == listed_name(listed[i as int]));
            let ghost before = names@;
            names.push(name);
            assert(names@.map_values(|s: String| s@) =~= before.map_values(|s: String| s@).push(
                name@,
            ));
            assert(listed.take(i + 1).map_values(|e: (bool, Seq<char>)| listed_name(e))
                =~= listed.take(i as int).map_values(|e: (bool, Seq<char>)| listed_name(e)).push(
                listed_name(listed[i as int]),
            ));
            i = i + 1;
        }
        assert(listed.take(entries@.len() as int) =~= listed);
        Ok(names)
    }

    /// Delete the file at `path`; `NotFound` when there is none.
    fn remove(&mut self, path: &str) -> (r: Result<(), FsError>)
        ensures
            final(self).dir_list() == old(self).dir_list(),
            match spec_remove(old(self).files(), path@) {
                Ok(m) => r == Ok::<(), FsError>(()) && final(self).files() == m,
                Err(e) => r == Err::<(), FsError>(e) && final(self).files() == old(self).files(),
            },
    {
        match self.find_file(path) {
            Some(i) => {
                let ghost old_files = self.file_list();
                proof {
                    lemma_lookup_index(old_files, i as int);
                    lemma_lookup_remove(old_files, i as int);
                }
                self.files.remove(i);
                proof {
                    assert(self.file_list() =~= old_files.remove(i as int));
                    lemma_file_map_remove(old_files, self.file_list(), path@);
                }
                Ok(())
            },
            None => Err(FsError::NotFound),
        }
    }
}

} // verus!
