//! An ordered listing of the image files of one directory, with a cursor.

use crate::path::{has_extension_in, has_extension_of};
use crate::sort::{is_sorted, is_stable_sort, lemma_filter_push, stable_sort};
use vstd::prelude::*;

verus! {

/// What a listing is ordered by.
#[derive(Clone, Copy, PartialEq, Eq, Debug, Structural)]
pub enum Order {
    /// The path, byte by byte.
    Name,
    /// The time of the last change, in seconds.
    UpdatedDate,
    /// The size of the file, in bytes.
    FileSize,
}

/// The direction of an order.
#[derive(Clone, Copy, PartialEq, Eq, Debug, Structural)]
pub enum Comparison {
    /// Smallest first.
    Ascending,
    /// Largest first.
    Descending,
}

/// What the file system reports of one path.
#[derive(Clone, Copy, Debug)]
pub struct FileStat {
    /// The path names a regular file that exists.
    pub is_file: bool,
    /// Seconds from the epoch to the last change, where that is known.
    pub modified: Option<u64>,
    /// The size in bytes, where that is known.
    pub size: Option<u64>,
}

/// A path together with what the file system reports of it.
#[derive(Debug)]
pub struct FileEntry {
    /// The path of the file.
    pub path: String,
    /// What is known of the file.
    pub stat: FileStat,
}

/// What a [`Directory`] is: its files in order, the cursor, and how it was
/// made.
pub struct DirectoryView {
    /// The files, in order.
    pub files: Seq<FileEntry>,
    /// The position of the cursor.
    pub index: int,
    /// What the files are ordered by.
    pub order: Order,
    /// The direction of the order.
    pub comp: Comparison,
    /// How many files beyond the cursor are wanted after a step.
    pub lookahead: int,
}

impl DirectoryView {
    /// The cursor points at a file, or the listing is empty and the cursor
    /// is 0; the files are in order.
    pub open spec fn wf(self) -> bool {
        &&& (0 <= self.index < self.files.len() || (self.files.len() == 0 && self.index == 0))
        &&& self.lookahead >= 0
        &&& is_sorted(self.files, self.order, self.comp)
    }

    /// The paths of the files, in order.
    pub open spec fn paths(self) -> Seq<Seq<char>> {
        self.files.map_values(|e: FileEntry| e.path@)
    }

    /// The path under the cursor, if the listing is not empty.
    pub open spec fn current_path(self) -> Option<Seq<char>> {
        if self.files.len() == 0 {
            None
        } else {
            Some(self.files[self.index].path@)
        }
    }

    /// The same listing with the cursor at `index`.
    pub open spec fn with_index(self, index: int) -> DirectoryView {
        DirectoryView { index, ..self }
    }

    /// The listing after a step forward: the cursor moves by one unless it
    /// is on the last file.
    pub open spec fn after_next(self) -> DirectoryView {
        if self.index + 1 < self.files.len() {
            self.with_index(self.index + 1)
        } else {
            self
        }
    }

    /// The listing after a step back: the cursor moves by one unless it is
    /// on the first file.
    pub open spec fn after_prev(self) -> DirectoryView {
        if self.index > 0 {
            self.with_index(self.index - 1)
        } else {
            self
        }
    }

    /// The last index that is wanted when looking ahead from the cursor.
    pub open spec fn ahead_end(self) -> int {
        if self.index + self.lookahead < self.files.len() - 1 {
            self.index + self.lookahead
        } else {
            self.files.len() - 1
        }
    }

    /// The first index that is wanted when looking back from the cursor.
    pub open spec fn behind_start(self) -> int {
        if self.index - self.lookahead > 0 {
            self.index - self.lookahead
        } else {
            0
        }
    }

    /// The paths from the cursor through `lookahead` files beyond it, as far
    /// as the listing goes.
    pub open spec fn window_ahead(self) -> Seq<Seq<char>> {
        if self.files.len() == 0 {
            Seq::empty()
        } else {
            self.paths().subrange(self.index, self.ahead_end() + 1)
        }
    }

    /// The paths from `lookahead` files before the cursor, as far as the
    /// listing goes, through the cursor.
    pub open spec fn window_behind(self) -> Seq<Seq<char>> {
        if self.files.len() == 0 {
            Seq::empty()
        } else {
            self.paths().subrange(self.behind_start(), self.index + 1)
        }
    }
}

/// After a step, what is wanted starts or ends with the file under the
/// cursor, and holds at most `lookahead` files besides it. A step never
/// takes the cursor out of the listing.
pub proof fn lemma_windows_hold_the_cursor(dir: DirectoryView)
    requires
        dir.wf(),
        dir.files.len() > 0,
    ensures
        dir.after_next().wf(),
        dir.after_prev().wf(),
        1 <= dir.window_ahead().len() <= dir.lookahead + 1,
        Some(dir.window_ahead().first()) == dir.current_path(),
        1 <= dir.window_behind().len() <= dir.lookahead + 1,
        Some(dir.window_behind().last()) == dir.current_path(),
        dir.index == dir.files.len() - 1 ==> dir.after_next() == dir && dir.window_ahead().len()
            == 1,
        dir.index == 0 ==> dir.after_prev() == dir && dir.window_behind().len() == 1,
{
}

/// The files that a listing takes in: regular files whose extension is one
/// of `extensions`.
pub open spec fn is_kept(extensions: Seq<Seq<char>>) -> spec_fn(FileEntry) -> bool {
    |e: FileEntry| e.stat.is_file && has_extension_in(e.path@, extensions)
}

/// The files that are still there.
pub open spec fn is_present() -> spec_fn(FileEntry) -> bool {
    |e: FileEntry| e.stat.is_file
}

/// What is reported of the file at `i`: the report at `i`, or, where the
/// reports end before that, that the file is gone.
pub open spec fn report_for(stats: Seq<FileStat>, i: int) -> FileStat {
    if 0 <= i < stats.len() {
        stats[i]
    } else {
        FileStat { is_file: false, modified: None, size: None }
    }
}

/// The files of a listing, each with what the file system now reports of
/// it.
pub open spec fn refreshed(files: Seq<FileEntry>, stats: Seq<FileStat>) -> Seq<FileEntry> {
    Seq::new(files.len(), |i: int| FileEntry { path: files[i].path, stat: report_for(stats, i) })
}

/// The index of the first file with the given path, or the number of files
/// where none has it.
pub open spec fn position(files: Seq<FileEntry>, path: Seq<char>) -> int
    decreases files.len(),
{
    if files.len() == 0 {
        0
    } else if files[0].path@ == path {
        0
    } else {
        1 + position(files.drop_first(), path)
    }
}

/// Where the cursor goes in a new listing: to the first file with the given
/// path, or to 0 where there is no such file or no path is given.
pub open spec fn anchor(files: Seq<FileEntry>, path: Option<Seq<char>>) -> int {
    match path {
        Some(p) => if position(files, p) < files.len() {
            position(files, p)
        } else {
            0
        },
        None => 0,
    }
}

/// The text of an optional path.
pub open spec fn path_view(path: Option<String>) -> Option<Seq<char>> {
    match path {
        Some(p) => Some(p@),
        None => None,
    }
}

/// `position` gives the least index with the path, and the number of files
/// exactly when no file has it.
pub proof fn lemma_position(files: Seq<FileEntry>, path: Seq<char>)
    ensures
        0 <= position(files, path) <= files.len(),
        position(files, path) < files.len() ==> files[position(files, path)].path@ == path,
        forall|j: int| 0 <= j < position(files, path) ==> (#[trigger] files[j]).path@ != path,
    decreases files.len(),
{
    if files.len() > 0 && files[0].path@ != path {
        let rest = files.drop_first();
        lemma_position(rest, path);
        assert forall|j: int| 0 <= j < position(files, path) implies (#[trigger] files[j]).path@
            != path by {
            if j > 0 {
                assert(rest[j - 1] == files[j]);
            }
        }
    }
}

/// A cursor that is anchored on a path which some file has points at a file
/// with that path.
pub proof fn lemma_anchor_finds(files: Seq<FileEntry>, path: Seq<char>, at: int)
    requires
        0 <= at < files.len(),
        files[at].path@ == path,
    ensures
        0 <= anchor(files, Some(path)) < files.len(),
        files[anchor(files, Some(path))].path@ == path,
{
    lemma_position(files, path);
}

/// The files of one directory that match a list of extensions, in order,
/// with a cursor on one of them.
pub struct Directory {
    files: Vec<FileEntry>,
    index: usize,
    order: Order,
    comp: Comparison,
    lookahead: usize,
}

impl View for Directory {
    type V = DirectoryView;

    closed spec fn view(&self) -> DirectoryView {
        DirectoryView {
            files: self.files@,
            index: self.index as int,
            order: self.order,
            comp: self.comp,
            lookahead: self.lookahead as int,
        }
    }
}

/// Takes from `files` those that a listing keeps.
fn keep(files: Vec<FileEntry>, exts: &Vec<String>) -> (kept: Vec<FileEntry>)
    ensures
        kept@ == files@.filter(is_kept(exts.deep_view())),
{
    let ghost all = files@;
    let ghost pred = is_kept(exts.deep_view());
    let mut kept: Vec<FileEntry> = Vec::new();
    proof {
        reveal(Seq::filter);
        assert(all.take(0).filter(pred) =~= Seq::<FileEntry>::empty());
    }
    for e in it: files.into_iter()
        invariant
            it.seq() == all,
            pred == is_kept(exts.deep_view()),
            kept@ == all.take(it.index() as int).filter(pred),
    {
        proof {
            lemma_filter_push(all.take(it.index() as int), e, pred);
            assert(all.take(it.index() as int).push(e) =~= all.take(it.index() + 1));
        }
        if e.stat.is_file && has_extension_of(e.path.as_str(), exts) {
            kept.push(e);
        }
    }
    assert(all.take(all.len() as int) =~= all);
    kept
}

/// Gives each file what the file system now reports of it, and drops those
/// that are no longer there.
fn refresh(files: Vec<FileEntry>, stats: &Vec<FileStat>) -> (fresh: Vec<FileEntry>)
    ensures
        fresh@ == refreshed(files@, stats@).filter(is_present()),
{
    let ghost all = files@;
    let ghost renewed = refreshed(files@, stats@);
    let ghost pred = is_present();
    let mut fresh: Vec<FileEntry> = Vec::new();
    let mut i: usize = 0;
    let n = files.len();
    proof {
        reveal(Seq::filter);
        assert(renewed.take(0).filter(pred) =~= Seq::<FileEntry>::empty());
    }
    for e in it: files.into_iter()
        invariant
            it.seq() == all,
            i == it.index(),
            n == all.len(),
            renewed == refreshed(all, stats@),
            pred == is_present(),
            fresh@ == renewed.take(it.index() as int).filter(pred),
    {
        let stat = if i < stats.len() {
            stats[i]
        } else {
            FileStat { is_file: false, modified: None, size: None }
        };
        let entry = FileEntry { path: e.path, stat };
        proof {
            assert(entry == renewed[i as int]);
            lemma_filter_push(renewed.take(i as int), entry, pred);
            assert(renewed.take(i as int).push(entry) =~= renewed.take(i + 1));
        }
        if entry.stat.is_file {
            fresh.push(entry);
        }
        i = i + 1;
    }
    assert(renewed.take(all.len() as int) =~= renewed);
    fresh
}

/// Finds where the cursor goes in `files`.
fn find_anchor(files: &Vec<FileEntry>, path: &Option<String>) -> (index: usize)
    ensures
        index == anchor(files@, path_view(*path)),
{
    match path {
        None => 0,
        Some(p) => {
            let mut i: usize = 0;
            assert(files@.skip(0) =~= files@);
            while i < files.len()
                invariant
                    i <= files@.len(),
                    *path == Some(*p),
                    position(files@, p@) == i + position(files@.skip(i as int), p@),
                decreases files@.len() - i,
            {
                assert(files@.skip(i as int)[0] == files@[i as int]);
                if files[i].path == *p {
                    return i;
                }
                assert(files@.skip(i as int).drop_first() =~= files@.skip(i as int + 1));
                i = i + 1;
            }
            0
        },
    }
}

impl Directory {
    #[verifier::type_invariant]
    spec fn inv(&self) -> bool {
        self@.wf()
    }

    /// Makes a listing of those of `files` that are regular files with an
    /// extension out of `exts`, ordered by `order` in the direction `comp`.
    /// The cursor starts on the file with the path `init`, or on the first
    /// file where there is no such file.
    pub fn new(
        files: Vec<FileEntry>,
        exts: &Vec<String>,
        order: Order,
        comp: Comparison,
        lookahead: usize,
        init: Option<String>,
    ) -> (dir: Directory)
        ensures
            dir@.wf(),
            is_stable_sort(dir@.files, files@.filter(is_kept(exts.deep_view())), order, comp),
            dir@.index == anchor(dir@.files, path_view(init)),
            dir@.order == order,
            dir@.comp == comp,
            dir@.lookahead == lookahead,
    {
        let kept = keep(files, exts);
        let sorted = stable_sort(kept, order, comp);
        let index = find_anchor(&sorted, &init);
        proof {
            if init is Some {
                lemma_position(sorted@, init->Some_0@);
            }
        }
        Directory { files: sorted, index, order, comp, lookahead }
    }

    /// Returns the position of the cursor; 0 for an empty listing.
    pub fn index(&self) -> (index: usize)
        ensures
            index == self@.index,
            self@.wf(),
    {
        proof {
            use_type_invariant(self);
        }
        self.index
    }

    /// Returns the number of files.
    pub fn len(&self) -> (len: usize)
        ensures
            len == self@.files.len(),
    {
        self.files.len()
    }

    /// Returns the path under the cursor; `None` exactly for an empty
    /// listing.
    pub fn current(&self) -> (path: Option<&String>)
        ensures
            path is None <==> self@.files.len() == 0,
            path matches Some(p) ==> Some(p@) == self@.current_path(),
    {
        proof {
            use_type_invariant(self);
        }
        if self.files.len() == 0 {
            None
        } else {
            Some(&self.files[self.index].path)
        }
    }

    /// Returns the paths of all files, in order.
    pub fn paths(&self) -> (paths: Vec<String>)
        ensures
            paths.deep_view() == self@.paths(),
    {
        if self.files.len() == 0 {
            let paths: Vec<String> = Vec::new();
            assert(paths.deep_view() =~= self@.paths());
            paths
        } else {
            let paths = self.paths_between(0, self.files.len() - 1);
            assert(self@.paths().subrange(0, self.files@.len() as int) =~= self@.paths());
            paths
        }
    }

    /// Returns what the files are ordered by.
    pub fn order(&self) -> (order: Order)
        ensures
            order == self@.order,
    {
        self.order
    }

    /// Returns the direction of the order.
    pub fn comparison(&self) -> (comp: Comparison)
        ensures
            comp == self@.comp,
    {
        self.comp
    }

    /// Returns how many files beyond the cursor are wanted after a step.
    pub fn lookahead(&self) -> (lookahead: usize)
        ensures
            lookahead == self@.lookahead,
    {
        self.lookahead
    }

    /// Copies the paths of the files from `from` through `to`.
    fn paths_between(&self, from: usize, to: usize) -> (paths: Vec<String>)
        requires
            from <= to < self@.files.len(),
        ensures
            paths.deep_view() == self@.paths().subrange(from as int, to + 1),
    {
        let mut paths: Vec<String> = Vec::new();
        let mut k: usize = from;
        let n = self.files.len();
        while k <= to
            invariant
                from <= k <= to + 1,
                to < n,
                n == self.files@.len(),
                paths@.len() == k - from,
                forall|j: int| 0 <= j < paths@.len() ==> paths@[j]@ == self.files@[from + j].path@,
            decreases to + 1 - k,
        {
            paths.push(self.files[k].path.clone());
            k = k + 1;
        }
        assert(paths.deep_view() =~= self@.paths().subrange(from as int, to + 1));
        paths
    }

    /// Steps to the next file, unless the cursor is on the last one, and
    /// returns the paths that should now be resident: that under the cursor
    /// and up to `lookahead` that follow it. An empty listing gives none.
    pub fn next(&mut self) -> (wanted: Vec<String>)
        ensures
            final(self)@ == old(self)@.after_next(),
            wanted.deep_view() == final(self)@.window_ahead(),
    {
        proof {
            use_type_invariant(&*self);
        }
        let n = self.files.len();
        if n == 0 {
            let wanted: Vec<String> = Vec::new();
            assert(wanted.deep_view() =~= Seq::<Seq<char>>::empty());
            return wanted;
        }
        if self.index < n - 1 {
            self.index = self.index + 1;
        }
        let end = if self.lookahead < n - 1 - self.index {
            self.index + self.lookahead
        } else {
            n - 1
        };
        self.paths_between(self.index, end)
    }

    /// Steps to the file before, unless the cursor is on the first one, and
    /// returns the paths that should now be resident: up to `lookahead` that
    /// come before the cursor, and that under it. An empty listing gives
    /// none.
    pub fn prev(&mut self) -> (wanted: Vec<String>)
        ensures
            final(self)@ == old(self)@.after_prev(),
            wanted.deep_view() == final(self)@.window_behind(),
    {
        proof {
            use_type_invariant(&*self);
        }
        if self.files.len() == 0 {
            let wanted: Vec<String> = Vec::new();
            assert(wanted.deep_view() =~= Seq::<Seq<char>>::empty());
            return wanted;
        }
        if self.index > 0 {
            self.index = self.index - 1;
        }
        let start = if self.index > self.lookahead {
            self.index - self.lookahead
        } else {
            0
        };
        self.paths_between(start, self.index)
    }

    /// Orders the listing anew. `stats` holds, for each file in turn, what
    /// the file system now reports of it; a file without a report counts as
    /// gone. Files that are no longer there leave the listing. The cursor
    /// stays on the file it was on, and goes to the first file if that one
    /// has left.
    pub fn change_order(&mut self, order: Order, comp: Comparison, stats: &Vec<FileStat>)
        ensures
            final(self)@.wf(),
            is_stable_sort(
                final(self)@.files,
                refreshed(old(self)@.files, stats@).filter(is_present()),
                order,
                comp,
            ),
            final(self)@.index == anchor(final(self)@.files, old(self)@.current_path()),
            final(self)@.order == order,
            final(self)@.comp == comp,
            final(self)@.lookahead == old(self)@.lookahead,
            old(self)@.files.len() > 0 && report_for(stats@, old(self)@.index).is_file
                ==> final(self)@.current_path() == old(self)@.current_path(),
    {
        proof {
            use_type_invariant(&*self);
        }
        let ghost before = self@;
        let current: Option<String> = match self.current() {
            Some(p) => Some(p.clone()),
            None => None,
        };
        let mut taken = Directory {
            files: Vec::new(),
            index: 0,
            order: self.order,
            comp: self.comp,
            lookahead: self.lookahead,
        };
        std::mem::swap(self, &mut taken);
        let Directory { files, index: _, order: _, comp: _, lookahead } = taken;
        let fresh = refresh(files, stats);
        let sorted = stable_sort(fresh, order, comp);
        let index = find_anchor(&sorted, &current);
        proof {
            let renewed = refreshed(before.files, stats@);
            if current is Some {
                let p = current->Some_0@;
                lemma_position(sorted@, p);
                if report_for(stats@, before.index).is_file {
                    let e = renewed[before.index];
                    assert(is_present()(e));
                    renewed.lemma_filter_contains(is_present(), before.index);
                    assert(fresh@.contains(e));
                    fresh@.to_multiset_ensures();
                    sorted@.to_multiset_ensures();
                    assert(fresh@.to_multiset().count(e) > 0);
                    assert(sorted@.contains(e));
                    let at = choose|at: int| 0 <= at < sorted@.len() && sorted@[at] == e;
                    lemma_anchor_finds(sorted@, p, at);
                }
            }
        }
        *self = Directory { files: sorted, index, order, comp, lookahead };
    }
}

} // verus!
