use vstd::prelude::*;
use crate::catalog::{
    rebuilt, book_has_key, same_key,
    Catalog, AudioBookRow, FileMetadata, BaseFileMetadata, has_staged, has_book,
    book_used, has_file_for, clone_opt,
};
use crate::model::{FileScanCacheView, opt_view};
use crate::status::ResolvedStatus;

verus! {

#[derive(Debug, Clone, Copy, PartialEq, Eq, Structural)]
pub enum ChangeType {
    Rename,
    MoveTitle,
    MergeTitle,
    FileMove,
}

/// A user's reorganization directive. `file_ids` are staged file ids.
#[derive(Debug, Clone)]
pub struct ChangeDto {
    pub change_type: ChangeType,
    pub file_ids: Vec<i64>,
    pub current_author: Option<String>,
    pub current_series: Option<String>,
    pub current_filetitle: Option<String>,
    pub new_author: Option<String>,
    pub new_series: Option<String>,
    pub new_filetitle: Option<String>,
    pub new_book_id: Option<i64>,
    pub current_book_ids: Option<Vec<i64>>,
}

/// Why a directive was rejected; a rejected directive changes nothing.
#[derive(Debug, Clone, Copy, PartialEq, Eq, Structural)]
pub enum ChangeError {
    /// A field that the directive's type needs is absent.
    MissingFields,
    /// A target id names no staged file.
    UnknownFile,
    /// The destination book does not exist.
    UnknownBook,
    /// The new author or series would give two books the same key.
    KeyTaken,
}

impl Catalog {
    /// Everything `wf` asks but that every book has files.
    pub open spec fn linked(&self) -> bool {
        &&& self.staged_ok()
        &&& self.books_ok()
        &&& self.files_ok()
        &&& self.links_ok()
        &&& 0 <= self.next_staged_id
        &&& 0 <= self.next_book_id
        &&& 0 <= self.next_file_id
    }

    pub open spec fn all_staged(&self, ids: Seq<i64>) -> bool {
        forall|k: int| 0 <= k < ids.len() ==> has_staged(self.staged@, #[trigger] ids[k])
    }

    fn has_staged_id(&self, id: i64) -> (r: bool)
        ensures
            r == has_staged(self.staged@, id),
    {
        let mut i: usize = 0;
        while i < self.staged.len()
            invariant
                i <= self.staged@.len(),
                forall|q: int| 0 <= q < i ==> (#[trigger] self.staged@[q]).id != id,
            decreases self.staged@.len() - i,
        {
            if self.staged[i].id == id {
                return true;
            }
            i = i + 1;
        }
        false
    }

    fn all_known(&self, ids: &Vec<i64>) -> (r: bool)
        ensures
            r == self.all_staged(ids@),
    {
        let mut k: usize = 0;
        while k < ids.len()
            invariant
                k <= ids@.len(),
                forall|q: int| 0 <= q < k ==> has_staged(self.staged@, #[trigger] ids@[q]),
            decreases ids@.len() - k,
        {
            if !self.has_staged_id(ids[k]) {
                return false;
            }
            k = k + 1;
        }
        true
    }

    fn has_book_id(&self, id: i64) -> (r: bool)
        ensures
            r == has_book(self.books@, id),
    {
        let mut i: usize = 0;
        while i < self.books.len()
            invariant
                i <= self.books@.len(),
                forall|q: int| 0 <= q < i ==> (#[trigger] self.books@[q]).id != id,
            decreases self.books@.len() - i,
        {
            if self.books[i].id == id {
                return true;
            }
            i = i + 1;
        }
        false
    }
}

fn contains_id(ids: &Vec<i64>, id: i64) -> (r: bool)
    ensures
        r == ids@.contains(id),
{
    let mut k: usize = 0;
    while k < ids.len()
        invariant
            k <= ids@.len(),
            forall|q: int| 0 <= q < k ==> ids@[q] != id,
        decreases ids@.len() - k,
    {
        if ids[k] == id {
            return true;
        }
        k = k + 1;
    }
    false
}

/// A staged record after a directive: the given fields replaced, the status
/// `UserResolved`.
pub open spec fn retarget(
    m: FileScanCacheView,
    author: Option<Seq<char>>,
    series: Option<Seq<char>>,
    title: Option<Seq<char>>,
) -> FileScanCacheView {
    FileScanCacheView {
        author: if author is Some {
            author
        } else {
            m.author
        },
        clean_series: if series is Some {
            series
        } else {
            m.clean_series
        },
        file_name: if title is Some {
            title->0
        } else {
            m.file_name
        },
        clean_title: if title is Some {
            title
        } else {
            m.clean_title
        },
        resolve_status: ResolvedStatus::UserResolved,
        ..m
    }
}

impl Catalog {
    /// Sets the given fields on the staged files with ids in `ids`, and marks them
    /// `UserResolved`.
    fn retarget_staged(
        &mut self,
        ids: &Vec<i64>,
        author: &Option<String>,
        series: &Option<String>,
        title: &Option<String>,
    )
        requires
            old(self).linked(),
        ensures
            final(self).linked(),
            final(self).staged@.len() == old(self).staged@.len(),
            forall|i: int|
                0 <= i < old(self).staged@.len() ==> (#[trigger] final(self).staged@[i]).id == old(
                    self,
                ).staged@[i].id,
            forall|i: int|
                0 <= i < old(self).staged@.len() ==> (#[trigger] final(self).staged@[i]).meta@ == if ids@.contains(
                    old(self).staged@[i].id,
                ) {
                    retarget(old(self).staged@[i].meta@, opt_view(*author), opt_view(*series), opt_view(*title))
                } else {
                    old(self).staged@[i].meta@
                },
            final(self).books@ == old(self).books@,
            final(self).files@ == old(self).files@,
            final(self).next_staged_id == old(self).next_staged_id,
            final(self).next_book_id == old(self).next_book_id,
            final(self).next_file_id == old(self).next_file_id,
    {
        let ghost o = self.staged@;
        let mut i: usize = 0;
        while i < self.staged.len()
            invariant
                i <= self.staged@.len(),
                self.staged@.len() == o.len(),
                self.linked(),
                self.books@ == old(self).books@,
                self.files@ == old(self).files@,
                self.next_staged_id == old(self).next_staged_id,
                self.next_book_id == old(self).next_book_id,
                self.next_file_id == old(self).next_file_id,
                forall|q: int| 0 <= q < o.len() ==> (#[trigger] self.staged@[q]).id == o[q].id
                    && self.staged@[q].meta.file_path@ == o[q].meta.file_path@,
                forall|q: int| i <= q < o.len() ==> #[trigger] self.staged@[q] == o[q],
                forall|q: int|
                    0 <= q < i ==> (#[trigger] self.staged@[q]).meta@ == if ids@.contains(o[q].id) {
                        retarget(o[q].meta@, opt_view(*author), opt_view(*series), opt_view(*title))
                    } else {
                        o[q].meta@
                    },
            decreases o.len() - i,
        {
            let ghost before = self.staged@;
            if contains_id(ids, self.staged[i].id) {
                match author {
                    Some(a) => {
                        self.staged[i].meta.author = Some(a.clone());
                    },
                    None => {},
                }
                match series {
                    Some(s) => {
                        self.staged[i].meta.clean_series = Some(s.clone());
                    },
                    None => {},
                }
                match title {
                    Some(t) => {
                        self.staged[i].meta.file_name = t.clone();
                        self.staged[i].meta.clean_title = Some(t.clone());
                    },
                    None => {},
                }
                self.staged[i].meta.resolve_status = ResolvedStatus::UserResolved;
            }
            proof {
                let now = self.staged@;
                assert forall|q: int| 0 <= q < o.len() && q != i implies #[trigger] now[q] == before[q] by {}
                assert forall|a: int, b: int|
                    0 <= a < b < now.len() implies (#[trigger] now[a]).id != (#[trigger] now[b]).id
                    && now[a].meta.file_path@ != now[b].meta.file_path@ by {
                    assert(before[a].id != before[b].id);
                }
                assert forall|q: int| 0 <= q < now.len() implies 0 <= (#[trigger] now[q]).id
                    < self.next_staged_id by {
                    assert(now[q].id == before[q].id);
                }
                assert forall|k: int| 0 <= k < self.files@.len() implies has_staged(
                    now,
                    (#[trigger] self.files@[k]).data.file_id->0,
                ) by {
                    let q = choose|q: int|
                        0 <= q < before.len() && (#[trigger] before[q]).id == self.files@[k].data.file_id->0;
                    assert(now[q].id == before[q].id);
                }
            }
            i = i + 1;
        }
    }
}

/// A file row is picked by a repoint: by its book (`by_book`) or by its staged file.
pub open spec fn picked(f: FileMetadata, ids: Seq<i64>, by_book: bool) -> bool {
    if by_book {
        ids.contains(f.data.book_id)
    } else {
        ids.contains(f.data.file_id->0)
    }
}

impl Catalog {
    /// Moves the picked file rows to book `bid`.
    fn repoint_files(&mut self, ids: &Vec<i64>, by_book: bool, bid: i64)
        requires
            old(self).linked(),
            has_book(old(self).books@, bid),
        ensures
            final(self).linked(),
            final(self).files@.len() == old(self).files@.len(),
            forall|k: int|
                0 <= k < old(self).files@.len() ==> (#[trigger] final(self).files@[k]).id == old(
                    self,
                ).files@[k].id && final(self).files@[k].data.file_id == old(self).files@[k].data.file_id
                    && final(self).files@[k].data.book_id == if picked(
                    old(self).files@[k],
                    ids@,
                    by_book,
                ) {
                    bid
                } else {
                    old(self).files@[k].data.book_id
                },
            forall|k: int|
                0 <= k < old(self).files@.len() && !picked(old(self).files@[k], ids@, by_book)
                    ==> #[trigger] final(self).files@[k] == old(self).files@[k],
            final(self).staged@ == old(self).staged@,
            final(self).books@ == old(self).books@,
            final(self).next_staged_id == old(self).next_staged_id,
            final(self).next_book_id == old(self).next_book_id,
            final(self).next_file_id == old(self).next_file_id,
    {
        let ghost o = self.files@;
        let mut k: usize = 0;
        while k < self.files.len()
            invariant
                k <= self.files@.len(),
                self.files@.len() == o.len(),
                self.linked(),
                has_book(self.books@, bid),
                self.staged@ == old(self).staged@,
                self.books@ == old(self).books@,
                self.next_staged_id == old(self).next_staged_id,
                self.next_book_id == old(self).next_book_id,
                self.next_file_id == old(self).next_file_id,
                forall|q: int| 0 <= q < o.len() ==> (#[trigger] self.files@[q]).id == o[q].id
                    && self.files@[q].data.file_id == o[q].data.file_id,
                forall|q: int| k <= q < o.len() ==> #[trigger] self.files@[q] == o[q],
                forall|q: int| 0 <= q < o.len() && !picked(o[q], ids@, by_book) ==> #[trigger] self.files@[q] == o[q],
                forall|q: int|
                    0 <= q < k ==> (#[trigger] self.files@[q]).data.book_id == if picked(o[q], ids@, by_book) {
                        bid
                    } else {
                        o[q].data.book_id
                    },
            decreases o.len() - k,
        {
            let ghost before = self.files@;
            let key = if by_book {
                self.files[k].data.book_id
            } else {
                match self.files[k].data.file_id {
                    Some(x) => x,
                    None => 0,
                }
            };
            if contains_id(ids, key) {
                self.files[k].data.book_id = bid;
            }
            proof {
                let now = self.files@;
                assert forall|q: int| 0 <= q < o.len() && q != k implies #[trigger] now[q] == before[q] by {}
                assert forall|a: int, b: int|
                    0 <= a < b < now.len() implies (#[trigger] now[a]).id != (#[trigger] now[b]).id
                    && now[a].data.file_id != now[b].data.file_id by {
                    assert(before[a].id != before[b].id);
                }
                assert forall|q: int| 0 <= q < now.len() implies 0 <= (#[trigger] now[q]).id
                    < self.next_file_id && now[q].data.file_id is Some by {
                    assert(now[q].id == before[q].id);
                }
                assert forall|q: int| 0 <= q < now.len() implies has_staged(
                    self.staged@,
                    (#[trigger] now[q]).data.file_id->0,
                ) && has_book(self.books@, now[q].data.book_id) by {
                    assert(now[q].data.file_id == before[q].data.file_id);
                }
            }
            k = k + 1;
        }
    }

    /// Adds a book and returns its id; the catalog may then hold a book without files.
    fn add_book(&mut self, author: &String, series: &String, location: &String) -> (id: i64)
        requires
            old(self).linked(),
            old(self).keys_ok(),
            !key_book(old(self).books@, author@, series@),
            old(self).next_book_id < i64::MAX,
        ensures
            final(self).linked(),
            final(self).keys_ok(),
            id == old(self).next_book_id,
            final(self).next_book_id == id + 1,
            final(self).books@.len() == old(self).books@.len() + 1,
            final(self).books@.drop_last() == old(self).books@,
            final(self).books@.last().id == id,
            final(self).books@.last().author@ == author@,
            opt_view(final(self).books@.last().series) == Some(series@),
            final(self).books@.last().title@ == series@,
            final(self).staged@ == old(self).staged@,
            final(self).files@ == old(self).files@,
            final(self).next_staged_id == old(self).next_staged_id,
            final(self).next_file_id == old(self).next_file_id,
    {
        let id = self.next_book_id;
        let b = AudioBookRow {
            id: id,
            author: author.clone(),
            series: Some(series.clone()),
            title: series.clone(),
            files_location: location.clone(),
            duration: 0,
            cover_art: None,
            metadata: None,
        };
        let ghost before = self.books@;
        self.books.push(b);
        self.next_book_id = id + 1;
        proof {
            let now = self.books@;
            assert(now.drop_last() =~= before);
            assert forall|a: int, c: int| 0 <= a < c < now.len() implies !same_key(#[trigger] now[a], #[trigger] now[c]) by {
                assert(now[a] == before[a]);
                if c < before.len() {
                    assert(now[c] == before[c]);
                } else {
                    assert(!book_has_key(before[a], author@, series@));
                }
            }
            assert forall|a: int, c: int|
                0 <= a < c < now.len() implies (#[trigger] now[a]).id != (#[trigger] now[c]).id by {
                assert(now[a] == before[a]);
                if c < before.len() {
                    assert(now[c] == before[c]);
                }
            }
            assert forall|q: int| 0 <= q < now.len() implies 0 <= (#[trigger] now[q]).id
                < self.next_book_id by {
                if q < before.len() {
                    assert(now[q] == before[q]);
                }
            }
            assert forall|k: int| 0 <= k < self.files@.len() implies has_book(
                now,
                (#[trigger] self.files@[k]).data.book_id,
            ) by {
                let q = choose|q: int| 0 <= q < before.len() && (#[trigger] before[q]).id == self.files@[k].data.book_id;
                assert(now[q] == before[q]);
            }
        }
        id
    }

    /// Index of the staged file with id `id`.
    fn staged_index(&self, id: i64) -> (r: Option<usize>)
        ensures
            match r {
                Some(i) => i < self.staged@.len() && self.staged@[i as int].id == id,
                None => !has_staged(self.staged@, id),
            },
    {
        let mut i: usize = 0;
        while i < self.staged.len()
            invariant
                i <= self.staged@.len(),
                forall|q: int| 0 <= q < i ==> (#[trigger] self.staged@[q]).id != id,
            decreases self.staged@.len() - i,
        {
            if self.staged[i].id == id {
                return Some(i);
            }
            i = i + 1;
        }
        None
    }

    /// Gives each staged file of `ids` that has no file row one in book `bid`.
    fn add_missing_files(&mut self, ids: &Vec<i64>, bid: i64)
        requires
            old(self).linked(),
            has_book(old(self).books@, bid),
            old(self).next_file_id + ids@.len() <= i64::MAX,
        ensures
            final(self).linked(),
            final(self).files@.len() >= old(self).files@.len(),
            final(self).files@.subrange(0, old(self).files@.len() as int) == old(self).files@,
            forall|k: int|
                old(self).files@.len() <= k < final(self).files@.len() ==> (#[trigger] final(self).files@[k]).data.book_id
                    == bid && ids@.contains(final(self).files@[k].data.file_id->0),
            forall|q: int|
                0 <= q < ids@.len() && has_staged(old(self).staged@, #[trigger] ids@[q]) ==> has_file_for(
                    final(self).files@,
                    ids@[q],
                ),
            final(self).next_file_id <= old(self).next_file_id + ids@.len(),
            final(self).staged@ == old(self).staged@,
            final(self).books@ == old(self).books@,
            final(self).next_staged_id == old(self).next_staged_id,
            final(self).next_book_id == old(self).next_book_id,
    {
        let ghost o = self.files@;
        let mut q: usize = 0;
        while q < ids.len()
            invariant
                q <= ids@.len(),
                self.linked(),
                has_book(self.books@, bid),
                self.files@.len() >= o.len(),
                self.files@.subrange(0, o.len() as int) == o,
                forall|k: int|
                    o.len() <= k < self.files@.len() ==> (#[trigger] self.files@[k]).data.book_id == bid
                        && ids@.contains(self.files@[k].data.file_id->0),
                forall|p: int|
                    0 <= p < q && has_staged(self.staged@, #[trigger] ids@[p]) ==> has_file_for(
                        self.files@,
                        ids@[p],
                    ),
                self.next_file_id <= old(self).next_file_id + q,
                old(self).next_file_id + ids@.len() <= i64::MAX,
                self.staged@ == old(self).staged@,
                self.books@ == old(self).books@,
                self.next_staged_id == old(self).next_staged_id,
                self.next_book_id == old(self).next_book_id,
            decreases ids@.len() - q,
        {
            let sid = ids[q];
            let ghost before = self.files@;
            if let Some(i) = self.staged_index(sid) {
                if self.find_file_row(sid).is_none() {
                    let f = FileMetadata {
                        id: self.next_file_id,
                        data: BaseFileMetadata {
                            book_id: bid,
                            file_id: Some(sid),
                            file_name: self.staged[i].meta.file_name.clone(),
                            file_path: self.staged[i].meta.file_path.clone(),
                            duration: self.staged[i].meta.duration,
                            channels: self.staged[i].meta.channels,
                            sample_rate: self.staged[i].meta.sample_rate,
                            bitrate: self.staged[i].meta.bitrate,
                        },
                    };
                    self.files.push(f);
                    self.next_file_id = self.next_file_id + 1;
                    proof {
                        let now = self.files@;
                        assert(now == before.push(f));
                        assert(now[before.len() as int] == f);
                        assert(ids@.contains(sid)) by {
                            assert(ids@[q as int] == sid);
                        }
                        assert(now.subrange(0, o.len() as int) =~= before.subrange(0, o.len() as int));
                        assert forall|a: int, b: int|
                            0 <= a < b < now.len() implies (#[trigger] now[a]).id != (#[trigger] now[b]).id
                            && now[a].data.file_id != now[b].data.file_id by {
                            assert(now[a] == before[a]);
                            if b < before.len() {
                                assert(now[b] == before[b]);
                            } else {
                                if before[a].data.file_id == Some(sid) {
                                    assert(has_file_for(before, sid));
                                }
                            }
                        }
                        assert forall|k: int| 0 <= k < now.len() implies 0 <= (#[trigger] now[k]).id
                            < self.next_file_id && now[k].data.file_id is Some && has_staged(
                            self.staged@,
                            now[k].data.file_id->0,
                        ) && has_book(self.books@, now[k].data.book_id) by {
                            if k < before.len() {
                                assert(now[k] == before[k]);
                            }
                        }
                        assert forall|k: int|
                            o.len() <= k < now.len() implies (#[trigger] now[k]).data.book_id == bid
                            && ids@.contains(now[k].data.file_id->0) by {
                            if k < before.len() {
                                assert(now[k] == before[k]);
                            }
                        }
                        assert forall|p: int|
                            0 <= p < q + 1 && has_staged(self.staged@, #[trigger] ids@[p]) implies has_file_for(
                            now,
                            ids@[p],
                        ) by {
                            if p < q {
                                let k = choose|k: int| 0 <= k < before.len() && (#[trigger] before[k]).data.file_id == Some(ids@[p]);
                                assert(now[k] == before[k]);
                            }
                        }
                    }
                }
            }
            q = q + 1;
        }
    }
}

/// Some file row of a staged file in `ids` belongs to book `bid`.
pub open spec fn owns_target(files: Seq<FileMetadata>, ids: Seq<i64>, bid: i64) -> bool {
    exists|k: int|
        0 <= k < files.len() && (#[trigger] files[k]).data.book_id == bid && ids.contains(
            files[k].data.file_id->0,
        )
}

/// The author of book `b` after a title move, `owned` telling whether it holds a
/// moved file.
pub open spec fn author_after(b: AudioBookRow, owned: bool, author: Option<Seq<char>>) -> Seq<char> {
    if owned && author is Some {
        author->0
    } else {
        b.author@
    }
}

/// The series of book `b` after a title move.
pub open spec fn series_after(b: AudioBookRow, owned: bool, series: Option<Seq<char>>) -> Option<Seq<char>> {
    if owned && series is Some {
        series
    } else {
        opt_view(b.series)
    }
}

/// After a title move, books `i` and `j` of `c` would share a key.
pub open spec fn clash_after(
    c: &Catalog,
    ids: Seq<i64>,
    author: Option<Seq<char>>,
    series: Option<Seq<char>>,
    i: int,
    j: int,
) -> bool {
    let oi = owns_target(c.files@, ids, c.books@[i].id);
    let oj = owns_target(c.files@, ids, c.books@[j].id);
    author_after(c.books@[i], oi, author) == author_after(c.books@[j], oj, author) && series_after(
        c.books@[i],
        oi,
        series,
    ) == series_after(c.books@[j], oj, series)
}

/// A title move leaves every book with its own key.
pub open spec fn retitle_unique(
    c: &Catalog,
    ids: Seq<i64>,
    author: Option<Seq<char>>,
    series: Option<Seq<char>>,
) -> bool {
    forall|i: int, j: int|
        0 <= i < j < c.books@.len() ==> !#[trigger] clash_after(c, ids, author, series, i, j)
}

/// The error a directive is rejected with, if any.
pub open spec fn change_error(c: &Catalog, ch: &ChangeDto) -> Option<ChangeError> {
    match ch.change_type {
        ChangeType::Rename => if ch.new_filetitle is None || ch.file_ids@.len() == 0 {
            Some(ChangeError::MissingFields)
        } else if !c.all_staged(ch.file_ids@) {
            Some(ChangeError::UnknownFile)
        } else {
            None
        },
        ChangeType::MoveTitle => if (ch.new_author is None && ch.new_series is None)
            || ch.file_ids@.len() == 0 {
            Some(ChangeError::MissingFields)
        } else if !c.all_staged(ch.file_ids@) {
            Some(ChangeError::UnknownFile)
        } else if !retitle_unique(c, ch.file_ids@, opt_view(ch.new_author), opt_view(ch.new_series)) {
            Some(ChangeError::KeyTaken)
        } else {
            None
        },
        ChangeType::MergeTitle => if ch.new_book_id is None || ch.current_book_ids is None {
            Some(ChangeError::MissingFields)
        } else if !has_book(c.books@, ch.new_book_id->0) {
            Some(ChangeError::UnknownBook)
        } else {
            None
        },
        ChangeType::FileMove => if ch.new_author is None || ch.new_series is None
            || ch.new_book_id is None || ch.file_ids@.len() == 0 {
            Some(ChangeError::MissingFields)
        } else if !c.all_staged(ch.file_ids@) {
            Some(ChangeError::UnknownFile)
        } else if ch.new_book_id->0 >= 0 && !has_book(c.books@, ch.new_book_id->0) {
            Some(ChangeError::UnknownBook)
        } else {
            None
        },
    }
}

/// Room that applying `ch` needs.
pub open spec fn change_room(c: &Catalog, ch: &ChangeDto) -> bool {
    c.next_book_id < i64::MAX && c.next_file_id + ch.file_ids@.len() <= i64::MAX
}

/// After a file move: every moved staged file has a file row in book `bid`, and
/// every book is an earlier one or `bid`.
pub open spec fn moved_to(old: &Catalog, new: &Catalog, ids: Seq<i64>, bid: i64) -> bool {
    &&& forall|q: int|
        0 <= q < ids.len() ==> exists|k: int|
            0 <= k < new.files@.len() && (#[trigger] new.files@[k]).data.file_id == Some(#[trigger] ids[q])
                && new.files@[k].data.book_id == bid
    &&& has_book(new.books@, bid)
    &&& forall|b: AudioBookRow| new.books@.contains(b) ==> old.books@.contains(b) || b.id == bid
    &&& forall|b: AudioBookRow|
        old.books@.contains(b) && book_used(new.files@, b.id) ==> new.books@.contains(b)
}

/// File rows of staged files outside `ids` keep their place and content.
pub open spec fn untouched_rows(old: &Catalog, new: &Catalog, ids: Seq<i64>) -> bool {
    &&& new.files@.len() >= old.files@.len()
    &&& forall|k: int|
        0 <= k < old.files@.len() && !ids.contains(old.files@[k].data.file_id->0)
            ==> #[trigger] new.files@[k] == old.files@[k]
}

/// Some book of `books` has key (`a`, `s`).
pub open spec fn key_book(books: Seq<AudioBookRow>, a: Seq<char>, s: Seq<char>) -> bool {
    exists|i: int| 0 <= i < books.len() && book_has_key(#[trigger] books[i], a, s)
}

/// Where a file move to (`a`, `s`) without a given book goes: the book with that
/// key, or a new book with the next id.
pub open spec fn move_target(c: &Catalog, a: Seq<char>, s: Seq<char>) -> i64 {
    if key_book(c.books@, a, s) {
        choose|b: i64| named_key_book(c, b, a, s)
    } else {
        c.next_book_id
    }
}

/// Book `bid` of `c` has key (`a`, `s`).
pub open spec fn named_key_book(c: &Catalog, bid: i64, a: Seq<char>, s: Seq<char>) -> bool {
    exists|i: int| 0 <= i < c.books@.len() && (#[trigger] c.books@[i]).id == bid && book_has_key(c.books@[i], a, s)
}

/// Book `bid` of `c` has author `a`, and `s` as its series and title.
pub open spec fn named_book(c: &Catalog, bid: i64, a: Seq<char>, s: Seq<char>) -> bool {
    exists|i: int|
        0 <= i < c.books@.len() && (#[trigger] c.books@[i]).id == bid && c.books@[i].author@ == a
            && opt_view(c.books@[i].series) == Some(s) && c.books@[i].title@ == s
}

impl Catalog {
    /// Collects the staged ids of the file rows of books in `src`.
    fn files_of_books(&self, src: &Vec<i64>) -> (r: Vec<i64>)
        requires
            self.files_ok(),
        ensures
            forall|id: i64| r@.contains(id) <==> merge_target(self.files@, src@, id),
    {
        let mut out: Vec<i64> = Vec::new();
        let mut k: usize = 0;
        while k < self.files.len()
            invariant
                k <= self.files@.len(),
                self.files_ok(),
                forall|q: int|
                    0 <= q < k && src@.contains((#[trigger] self.files@[q]).data.book_id) ==> out@.contains(
                        self.files@[q].data.file_id->0,
                    ),
                forall|id: i64|
                    out@.contains(id) ==> exists|q: int|
                        0 <= q < k && src@.contains((#[trigger] self.files@[q]).data.book_id)
                            && self.files@[q].data.file_id == Some(id),
            decreases self.files@.len() - k,
        {
            if contains_id(src, self.files[k].data.book_id) {
                let ghost prev = out@;
                let fid = match self.files[k].data.file_id {
                    Some(x) => x,
                    None => 0,
                };
                out.push(fid);
                proof {
                    assert(out@[prev.len() as int] == fid);
                    assert(out@.contains(self.files@[k as int].data.file_id->0));
                    assert forall|q: int|
                        0 <= q < k && src@.contains((#[trigger] self.files@[q]).data.book_id) implies out@.contains(
                        self.files@[q].data.file_id->0,
                    ) by {
                        let w = choose|w: int| 0 <= w < prev.len() && prev[w] == self.files@[q].data.file_id->0;
                        assert(out@[w] == prev[w]);
                    }
                    assert forall|id: i64| out@.contains(id) implies exists|q: int|
                        0 <= q < k + 1 && src@.contains((#[trigger] self.files@[q]).data.book_id)
                            && self.files@[q].data.file_id == Some(id) by {
                        if id != fid {
                            let w = choose|w: int| 0 <= w < out@.len() && out@[w] == id;
                            assert(prev[w] == id);
                            assert(prev.contains(id));
                        } else {
                            assert(self.files@[k as int].data.file_id == Some(id));
                        }
                    }
                }
            }
            k = k + 1;
        }
        proof {
            assert forall|id: i64| merge_target(self.files@, src@, id) implies out@.contains(id) by {
                let q = choose|q: int|
                    0 <= q < self.files@.len() && src@.contains((#[trigger] self.files@[q]).data.book_id)
                        && self.files@[q].data.file_id == Some(id);
            }
        }
        out
    }

    /// The first part of a file move: the rows are moved, no book is purged yet.
    #[verifier::spinoff_prover]
    #[verifier::rlimit(80)]
    fn move_rows(&mut self, ids: &Vec<i64>, author: &String, series: &String, dest: i64) -> (bid: i64)
        requires
            old(self).wf(),
            ids@.len() > 0,
            old(self).all_staged(ids@),
            dest < 0 || has_book(old(self).books@, dest),
            old(self).next_book_id < i64::MAX,
            old(self).next_file_id + ids@.len() <= i64::MAX,
        ensures
            final(self).linked(),
            final(self).keys_ok(),
            dest < 0 && !key_book(old(self).books@, author@, series@) ==> bid == old(self).next_book_id
                && final(self).next_book_id == bid + 1,
            dest < 0 && key_book(old(self).books@, author@, series@) ==> final(self).books@ == old(self).books@
                && final(self).next_book_id == old(self).next_book_id && named_key_book(old(self), bid, author@, series@),
            dest >= 0 ==> bid == dest && final(self).next_book_id == old(self).next_book_id,
            forall|q: int|
                0 <= q < ids@.len() ==> exists|k: int|
                    0 <= k < final(self).files@.len() && (#[trigger] final(self).files@[k]).data.file_id
                        == Some(#[trigger] ids@[q]) && final(self).files@[k].data.book_id == bid,
            has_book(final(self).books@, bid),
            forall|b: AudioBookRow| final(self).books@.contains(b) ==> old(self).books@.contains(b) || b.id == bid,
            dest >= 0 ==> final(self).books@ == old(self).books@,
            dest < 0 && !key_book(old(self).books@, author@, series@) ==> final(self).books@.drop_last() == old(self).books@ && final(self).books@.len() > 0
                && final(self).books@.last().id == bid && final(self).books@.last().author@ == author@
                && opt_view(final(self).books@.last().series) == Some(series@)
                && final(self).books@.last().title@ == series@,
            retargeted(old(self), final(self), ids@, Some(author@), Some(series@), None),
            untouched_rows(old(self), final(self), ids@),
            final(self).next_staged_id == old(self).next_staged_id,
            final(self).next_file_id <= old(self).next_file_id + ids@.len(),
    {
        let first = self.staged_index(ids[0]).unwrap();
        let location = self.staged[first].meta.path_parent.clone();
        self.retarget_staged(ids, &Some(author.clone()), &Some(series.clone()), &None);
        let ghost creates = dest < 0 && !key_book(old(self).books@, author@, series@);
        let bid = if dest < 0 {
            match self.find_book(author, series) {
                Some(bi) => {
                    proof {
                        crate::catalog::lemma_first_with_key(self.books@, author@, series@);
                        assert(book_has_key(self.books@[bi as int], author@, series@));
                        assert(key_book(old(self).books@, author@, series@));
                        assert(named_key_book(old(self), self.books@[bi as int].id, author@, series@));
                    }
                    self.books[bi].id
                },
                None => {
                    proof {
                        crate::catalog::lemma_first_with_key(self.books@, author@, series@);
                        assert(!key_book(self.books@, author@, series@));
                    }
                    self.add_book(author, series, &location)
                },
            }
        } else {
            proof {
                let m = choose|m: int| 0 <= m < old(self).books@.len() && (#[trigger] old(self).books@[m]).id == dest;
                assert(self.books@[m].id == dest);
            }
            dest
        };
        proof {
            if creates {
                assert(self.books@[self.books@.len() - 1].id == bid);
            } else if dest < 0 {
                let i = choose|i: int| 0 <= i < old(self).books@.len() && (#[trigger] old(self).books@[i]).id == bid
                    && book_has_key(old(self).books@[i], author@, series@);
                assert(self.books@[i].id == bid);
            }
            assert(has_book(self.books@, bid));
            assert forall|b: AudioBookRow| self.books@.contains(b) implies old(self).books@.contains(b) || b.id == bid by {
                let w = choose|w: int| 0 <= w < self.books@.len() && self.books@[w] == b;
                if creates && w < self.books@.len() - 1 {
                    assert(self.books@.drop_last()[w] == b);
                }
            }
        }
        let ghost f0 = self.files@;
        self.repoint_files(ids, false, bid);
        let ghost f1 = self.files@;
        proof {
            assert forall|q: int| 0 <= q < ids@.len() implies has_staged(self.staged@, #[trigger] ids@[q]) by {
                let i = choose|i: int| 0 <= i < old(self).staged@.len() && (#[trigger] old(self).staged@[i]).id == ids@[q];
                assert(self.staged@[i].id == ids@[q]);
            }
        }
        self.add_missing_files(ids, bid);
        proof {
            let f2 = self.files@;
            assert forall|k: int|
                0 <= k < f0.len() && !ids@.contains(f0[k].data.file_id->0) implies #[trigger] f2[k] == f0[k] by {
                assert(f2[k] == f2.subrange(0, f1.len() as int)[k]);
                assert(!picked(f0[k], ids@, false));
            }
            assert forall|q: int| 0 <= q < ids@.len() implies exists|k: int|
                0 <= k < f2.len() && (#[trigger] f2[k]).data.file_id == Some(#[trigger] ids@[q])
                    && f2[k].data.book_id == bid by {
                let k = choose|k: int| 0 <= k < f2.len() && (#[trigger] f2[k]).data.file_id == Some(ids@[q]);
                if k < f1.len() {
                    assert(f2[k] == f2.subrange(0, f1.len() as int)[k]);
                    assert(f1[k].data.file_id == f0[k].data.file_id);
                    assert(ids@.contains(f0[k].data.file_id->0)) by {
                        assert(ids@[q] == f0[k].data.file_id->0);
                    }
                }
            }
        }
        bid
    }

    /// Moves the staged files `ids` to (`author`, `series`), into book `dest`, or
    /// into a new book where `dest` is negative; books left without files go.
    #[verifier::spinoff_prover]
    fn file_move(&mut self, ids: &Vec<i64>, author: &String, series: &String, dest: i64) -> (bid: i64)
        requires
            old(self).wf(),
            ids@.len() > 0,
            old(self).all_staged(ids@),
            dest < 0 || has_book(old(self).books@, dest),
            old(self).next_book_id < i64::MAX,
            old(self).next_file_id + ids@.len() <= i64::MAX,
        ensures
            final(self).wf(),
            dest < 0 && !key_book(old(self).books@, author@, series@) ==> bid == old(self).next_book_id
                && final(self).next_book_id == bid + 1 && named_book(final(self), bid, author@, series@),
            dest < 0 && key_book(old(self).books@, author@, series@) ==> final(self).next_book_id
                == old(self).next_book_id && has_book(old(self).books@, bid) && named_key_book(old(self), bid, author@, series@),
            dest < 0 ==> named_key_book(final(self), bid, author@, series@),
            dest >= 0 ==> bid == dest && final(self).next_book_id == old(self).next_book_id,
            moved_to(old(self), final(self), ids@, bid),
            retargeted(old(self), final(self), ids@, Some(author@), Some(series@), None),
            untouched_rows(old(self), final(self), ids@),
            final(self).next_staged_id == old(self).next_staged_id,
            final(self).next_file_id <= old(self).next_file_id + ids@.len(),
    {
        let bid = self.move_rows(ids, author, series, dest);
        let ghost books_mid = self.books@;
        let ghost f2 = self.files@;
        self.purge_orphans();
        proof {
            let nf = self.files@;
            let k0 = choose|k: int| 0 <= k < nf.len() && (#[trigger] nf[k]).data.file_id == Some(ids@[0])
                && nf[k].data.book_id == bid;
            assert(book_used(nf, bid));
            let m = choose|m: int| 0 <= m < books_mid.len() && (#[trigger] books_mid[m]).id == bid;
            assert(self.books@.contains(books_mid[m]));
            let mm = choose|mm: int| 0 <= mm < self.books@.len() && self.books@[mm] == books_mid[m];
            assert(has_book(self.books@, bid)) by {
                assert(self.books@[mm].id == bid);
            }
            assert forall|b: AudioBookRow| self.books@.contains(b) implies old(self).books@.contains(b) || b.id == bid by {
                assert(books_mid.contains(b));
            }
            assert forall|b: AudioBookRow|
                old(self).books@.contains(b) && book_used(nf, b.id) implies self.books@.contains(b) by {
                let w = choose|w: int| 0 <= w < old(self).books@.len() && old(self).books@[w] == b;
                if dest < 0 && !key_book(old(self).books@, author@, series@) {
                    assert(books_mid[w] == books_mid.drop_last()[w]);
                }
                assert(books_mid[w] == b);
                assert(books_mid.contains(b));
            }
            if dest < 0 && !key_book(old(self).books@, author@, series@) {
                let last = books_mid.last();
                assert(books_mid[books_mid.len() - 1] == last);
                assert(book_used(f2, last.id));
                assert(self.books@.contains(last));
                let q = choose|q: int| 0 <= q < self.books@.len() && self.books@[q] == last;
                assert(self.books@[q].id == bid);
            }
            if dest < 0 && key_book(old(self).books@, author@, series@) {
                let i = choose|i: int| 0 <= i < old(self).books@.len() && (#[trigger] old(self).books@[i]).id == bid
                    && book_has_key(old(self).books@[i], author@, series@);
                assert(has_book(old(self).books@, bid));
                assert(books_mid[i] == old(self).books@[i]);
                assert(self.books@.contains(books_mid[i]));
                let q = choose|q: int| 0 <= q < self.books@.len() && self.books@[q] == books_mid[i];
                assert(named_key_book(self, bid, author@, series@));
            }
        }
        bid
    }
}

/// The staged files of `ids` got the given fields and `UserResolved`; the others
/// are as they were.
pub open spec fn retargeted(
    old: &Catalog,
    new: &Catalog,
    ids: Seq<i64>,
    author: Option<Seq<char>>,
    series: Option<Seq<char>>,
    title: Option<Seq<char>>,
) -> bool {
    &&& new.staged@.len() == old.staged@.len()
    &&& forall|i: int|
        0 <= i < old.staged@.len() ==> (#[trigger] new.staged@[i]).id == old.staged@[i].id
            && new.staged@[i].meta@ == if ids.contains(old.staged@[i].id) {
            retarget(old.staged@[i].meta@, author, series, title)
        } else {
            old.staged@[i].meta@
        }
}

/// After a merge: no book of `src` but `dest` is left, and every file row that
/// belonged to one of them belongs to `dest`.
pub open spec fn merged(old: &Catalog, new: &Catalog, src: Seq<i64>, dest: i64) -> bool {
    &&& forall|i: int|
        0 <= i < new.books@.len() ==> !src.contains((#[trigger] new.books@[i]).id) || new.books@[i].id
            == dest
    &&& new.files@.len() == old.files@.len()
    &&& forall|k: int|
        0 <= k < old.files@.len() ==> (#[trigger] new.files@[k]).id == old.files@[k].id && (src.contains(
            old.files@[k].data.book_id,
        ) ==> new.files@[k].data.book_id == dest)
    &&& forall|k: int|
        0 <= k < old.files@.len() && !src.contains(old.files@[k].data.book_id) ==> (
        #[trigger] new.files@[k]).data.book_id == old.files@[k].data.book_id
    &&& has_book(new.books@, dest)
    &&& exists|d: int|
        0 <= d < old.books@.len() && (#[trigger] old.books@[d]).id == dest && merge_retargeted(
            old,
            new,
            src,
            Some(old.books@[d].author@),
            opt_view(old.books@[d].series),
        )
}

/// Some file row of a book in `src` came from staged file `id`.
pub open spec fn merge_target(files: Seq<FileMetadata>, src: Seq<i64>, id: i64) -> bool {
    exists|k: int|
        0 <= k < files.len() && src.contains((#[trigger] files[k]).data.book_id)
            && files[k].data.file_id == Some(id)
}

/// The staged files of the merged books took (`author`, `series`) and
/// `UserResolved`; the others are as they were.
pub open spec fn merge_retargeted(
    old: &Catalog,
    new: &Catalog,
    src: Seq<i64>,
    author: Option<Seq<char>>,
    series: Option<Seq<char>>,
) -> bool {
    &&& new.staged@.len() == old.staged@.len()
    &&& forall|i: int|
        0 <= i < old.staged@.len() ==> (#[trigger] new.staged@[i]).id == old.staged@[i].id
            && new.staged@[i].meta@ == if merge_target(old.files@, src, old.staged@[i].id) {
            retarget(old.staged@[i].meta@, author, series, None)
        } else {
            old.staged@[i].meta@
        }
}

/// After a rename: every file row of a staged file in `ids` carries the name `t`.
pub open spec fn renamed_files(new: &Catalog, ids: Seq<i64>, t: Seq<char>) -> bool {
    forall|k: int|
        0 <= k < new.files@.len() && ids.contains((#[trigger] new.files@[k]).data.file_id->0)
            ==> new.files@[k].data.file_name@ == t
}

/// After a title move: every book that holds a file row of a staged file in `ids`
/// carries the given author and series.
pub open spec fn retitled_books(
    new: &Catalog,
    ids: Seq<i64>,
    author: Option<Seq<char>>,
    series: Option<Seq<char>>,
) -> bool {
    forall|i: int|
        0 <= i < new.books@.len() && owns_target(new.files@, ids, (#[trigger] new.books@[i]).id) ==> (
        author matches Some(a) ==> new.books@[i].author@ == a) && (series matches Some(s) ==> opt_view(
            new.books@[i].series,
        ) == Some(s) && new.books@[i].title@ == s)
}

impl Catalog {
    #[verifier::spinoff_prover]
    fn merge_into(&mut self, src: &Vec<i64>, dest: i64)
        requires
            old(self).wf(),
            has_book(old(self).books@, dest),
        ensures
            final(self).wf(),
            merged(old(self), final(self), src@, dest),
            final(self).staged@.len() == old(self).staged@.len(),
            final(self).next_staged_id == old(self).next_staged_id,
            final(self).next_book_id == old(self).next_book_id,
            final(self).next_file_id == old(self).next_file_id,
    {
        let mut di: usize = 0;
        let mut found = false;
        while di < self.books.len() && !found
            invariant
                di <= self.books@.len(),
                found ==> di < self.books@.len() && self.books@[di as int].id == dest,
                forall|q: int| 0 <= q < di ==> (#[trigger] self.books@[q]).id != dest,
            decreases self.books@.len() - di, if found { 0int } else { 1int },
        {
            if self.books[di].id == dest {
                found = true;
            } else {
                di = di + 1;
            }
        }
        if !found {
            proof {
                let m = choose|m: int| 0 <= m < self.books@.len() && (#[trigger] self.books@[m]).id == dest;
                assert(self.books@[m].id != dest);
            }
            return;
        }
        let author = self.books[di].author.clone();
        let series = clone_opt(&self.books[di].series);
        let moved = self.files_of_books(src);
        let ghost a0 = Some(author@);
        let ghost s0 = opt_view(series);
        self.retarget_staged(&moved, &Some(author), &series, &None);
        proof {
            assert(merge_retargeted(old(self), self, src@, a0, s0)) by {
                assert forall|i: int| 0 <= i < old(self).staged@.len() implies moved@.contains(
                    old(self).staged@[i].id,
                ) == merge_target(old(self).files@, src@, old(self).staged@[i].id) by {}
            }
        }
        let ghost st1 = self.staged@;
        let ghost f0 = self.files@;
        self.repoint_files(src, true, dest);
        let ghost f1 = self.files@;
        proof {
            assert(book_used(f0, dest));
            let k = choose|k: int| 0 <= k < f0.len() && (#[trigger] f0[k]).data.book_id == dest;
            assert(f1[k].data.book_id == dest);
            assert(book_used(f1, dest));
        }
        let ghost b1 = self.books@;
        self.purge_orphans();
        proof {
            let nb = self.books@;
            let m = choose|m: int| 0 <= m < b1.len() && (#[trigger] b1[m]).id == dest;
            assert(nb.contains(b1[m]));
            let mm = choose|mm: int| 0 <= mm < nb.len() && nb[mm] == b1[m];
            assert(has_book(nb, dest)) by {
                assert(nb[mm].id == dest);
            }
            assert forall|i: int| 0 <= i < nb.len() implies !src@.contains((#[trigger] nb[i]).id) || nb[i].id == dest by {
                assert(book_used(f1, nb[i].id));
                let k = choose|k: int| 0 <= k < f1.len() && (#[trigger] f1[k]).data.book_id == nb[i].id;
            }
            assert(self.staged@ == st1);
            assert(old(self).books@[di as int].id == dest);
            assert(merge_retargeted(old(self), self, src@, a0, s0));
        }
    }

    /// Gives the file rows of the staged files `ids` the name `t`.
    fn rename_files(&mut self, ids: &Vec<i64>, t: &String)
        requires
            old(self).linked(),
        ensures
            final(self).linked(),
            renamed_files(final(self), ids@, t@),
            final(self).files@.len() == old(self).files@.len(),
            forall|k: int|
                0 <= k < old(self).files@.len() && !ids@.contains(old(self).files@[k].data.file_id->0)
                    ==> #[trigger] final(self).files@[k] == old(self).files@[k],
            forall|k: int|
                0 <= k < old(self).files@.len() ==> (#[trigger] final(self).files@[k]).id == old(self).files@[k].id
                    && final(self).files@[k].data.file_id == old(self).files@[k].data.file_id
                    && final(self).files@[k].data.book_id == old(self).files@[k].data.book_id,
            final(self).staged@ == old(self).staged@,
            final(self).books@ == old(self).books@,
            final(self).next_staged_id == old(self).next_staged_id,
            final(self).next_book_id == old(self).next_book_id,
            final(self).next_file_id == old(self).next_file_id,
    {
        let ghost o = self.files@;
        let mut k: usize = 0;
        while k < self.files.len()
            invariant
                k <= self.files@.len(),
                self.files@.len() == o.len(),
                self.linked(),
                self.staged@ == old(self).staged@,
                self.books@ == old(self).books@,
                self.next_staged_id == old(self).next_staged_id,
                self.next_book_id == old(self).next_book_id,
                self.next_file_id == old(self).next_file_id,
                forall|q: int| 0 <= q < o.len() ==> (#[trigger] self.files@[q]).id == o[q].id
                    && self.files@[q].data.file_id == o[q].data.file_id
                    && self.files@[q].data.book_id == o[q].data.book_id,
                forall|q: int|
                    0 <= q < k && ids@.contains((#[trigger] self.files@[q]).data.file_id->0)
                        ==> self.files@[q].data.file_name@ == t@,
                forall|q: int|
                    0 <= q < o.len() && !ids@.contains(o[q].data.file_id->0) ==> #[trigger] self.files@[q]
                        == o[q],
            decreases o.len() - k,
        {
            let ghost before = self.files@;
            let key = match self.files[k].data.file_id {
                Some(x) => x,
                None => 0,
            };
            if contains_id(ids, key) {
                self.files[k].data.file_name = t.clone();
            }
            proof {
                let now = self.files@;
                assert forall|q: int| 0 <= q < o.len() && q != k implies #[trigger] now[q] == before[q] by {}
                assert forall|a: int, b: int|
                    0 <= a < b < now.len() implies (#[trigger] now[a]).id != (#[trigger] now[b]).id
                    && now[a].data.file_id != now[b].data.file_id by {
                    assert(before[a].id != before[b].id);
                }
                assert forall|q: int| 0 <= q < now.len() implies 0 <= (#[trigger] now[q]).id
                    < self.next_file_id && now[q].data.file_id is Some by {
                    assert(now[q].id == before[q].id);
                }
                assert forall|q: int| 0 <= q < now.len() implies has_staged(
                    self.staged@,
                    (#[trigger] now[q]).data.file_id->0,
                ) && has_book(self.books@, now[q].data.book_id) by {
                    assert(now[q].data.file_id == before[q].data.file_id);
                }
            }
            k = k + 1;
        }
    }

    /// Whether some file row of a staged file in `ids` belongs to book `bid`.
    fn owns_target_exec(&self, ids: &Vec<i64>, bid: i64) -> (r: bool)
        requires
            self.files_ok(),
        ensures
            r == owns_target(self.files@, ids@, bid),
    {
        let mut k: usize = 0;
        while k < self.files.len()
            invariant
                k <= self.files@.len(),
                self.files_ok(),
                forall|q: int|
                    0 <= q < k ==> !((#[trigger] self.files@[q]).data.book_id == bid && ids@.contains(
                        self.files@[q].data.file_id->0,
                    )),
            decreases self.files@.len() - k,
        {
            let fid = match self.files[k].data.file_id {
                Some(x) => x,
                None => 0,
            };
            if self.files[k].data.book_id == bid && contains_id(ids, fid) {
                return true;
            }
            k = k + 1;
        }
        false
    }
}

/// What applying directive `ch` to `c0` with outcome `r` leaves in `c1`.
pub open spec fn applies(c0: Catalog, c1: Catalog, ch: ChangeDto, r: Result<(), ChangeError>) -> bool {
    &&& (r is Err <==> change_error(&c0, &ch) is Some)
    &&& (r matches Err(e) ==> change_error(&c0, &ch) == Some(e) && c1 == c0)
    &&& (r is Ok && ch.change_type == ChangeType::Rename ==> {
        &&& retargeted(&c0, &c1, ch.file_ids@, None, None, opt_view(ch.new_filetitle))
        &&& renamed_files(&c1, ch.file_ids@, ch.new_filetitle->0@)
        &&& c1.books@ == c0.books@
        &&& c1.files@.len() == c0.files@.len()
        &&& forall|k: int|
            0 <= k < c0.files@.len() && !ch.file_ids@.contains(c0.files@[k].data.file_id->0)
                ==> #[trigger] c1.files@[k] == c0.files@[k]
    })
    &&& (r is Ok && ch.change_type == ChangeType::MoveTitle ==> {
        &&& retargeted(&c0, &c1, ch.file_ids@, opt_view(ch.new_author), opt_view(ch.new_series), None)
        &&& retitled_books(&c1, ch.file_ids@, opt_view(ch.new_author), opt_view(ch.new_series))
        &&& c1.files@ == c0.files@
        &&& c1.books@.len() == c0.books@.len()
        &&& forall|i: int|
            0 <= i < c0.books@.len() && !owns_target(c0.files@, ch.file_ids@, c0.books@[i].id)
                ==> #[trigger] c1.books@[i] == c0.books@[i]
    })
    &&& (r is Ok && ch.change_type == ChangeType::MergeTitle ==> merged(
        &c0,
        &c1,
        ch.current_book_ids->0@,
        ch.new_book_id->0,
    ))
    &&& (r is Ok && ch.change_type == ChangeType::FileMove ==> {
        &&& retargeted(&c0, &c1, ch.file_ids@, opt_view(ch.new_author), opt_view(ch.new_series), None)
        &&& untouched_rows(&c0, &c1, ch.file_ids@)
        &&& if ch.new_book_id->0 < 0 {
            {
                    let bid = move_target(&c0, ch.new_author->0@, ch.new_series->0@);
                    &&& moved_to(&c0, &c1, ch.file_ids@, bid)
                    &&& named_key_book(&c1, bid, ch.new_author->0@, ch.new_series->0@)
                    &&& if key_book(c0.books@, ch.new_author->0@, ch.new_series->0@) {
                        has_book(c0.books@, bid) && c1.next_book_id == c0.next_book_id
                    } else {
                        &&& bid == c0.next_book_id
                        &&& c1.next_book_id == c0.next_book_id + 1
                        &&& named_book(&c1, bid, ch.new_author->0@, ch.new_series->0@)
                    }
                }
        } else {
            &&& moved_to(&c0, &c1, ch.file_ids@, ch.new_book_id->0)
            &&& c1.next_book_id == c0.next_book_id
        }
    })
    &&& c1.next_staged_id == c0.next_staged_id
    &&& c1.staged@.len() == c0.staged@.len()
    &&& c1.next_book_id <= c0.next_book_id + 1
    &&& c1.next_file_id <= c0.next_file_id + ch.file_ids@.len()
}

impl Catalog {
    /// Whether books `i` and `j` would share a key after a title move.
    fn clash_after_exec(
        &self,
        i: usize,
        j: usize,
        oi: bool,
        oj: bool,
        author: &Option<String>,
        series: &Option<String>,
    ) -> (r: bool)
        requires
            i < self.books@.len(),
            j < self.books@.len(),
        ensures
            r == (author_after(self.books@[i as int], oi, opt_view(*author)) == author_after(
                self.books@[j as int],
                oj,
                opt_view(*author),
            ) && series_after(self.books@[i as int], oi, opt_view(*series)) == series_after(
                self.books@[j as int],
                oj,
                opt_view(*series),
            )),
    {
        let ai: &String = match author {
            Some(a) => if oi { a } else { &self.books[i].author },
            None => &self.books[i].author,
        };
        let aj: &String = match author {
            Some(a) => if oj { a } else { &self.books[j].author },
            None => &self.books[j].author,
        };
        if *ai != *aj {
            return false;
        }
        let si: Option<&String> = match series {
            Some(x) => if oi { Some(x) } else { match &self.books[i].series { Some(y) => Some(y), None => None } },
            None => match &self.books[i].series { Some(y) => Some(y), None => None },
        };
        let sj: Option<&String> = match series {
            Some(x) => if oj { Some(x) } else { match &self.books[j].series { Some(y) => Some(y), None => None } },
            None => match &self.books[j].series { Some(y) => Some(y), None => None },
        };
        let r = match (si, sj) {
            (Some(x), Some(y)) => *x == *y,
            (None, None) => true,
            _ => false,
        };
        proof {
            match (si, sj) {
                (Some(x), Some(y)) => {
                    assert(series_after(self.books@[i as int], oi, opt_view(*series)) == Some(x@));
                    assert(series_after(self.books@[j as int], oj, opt_view(*series)) == Some(y@));
                },
                _ => {},
            }
        }
        r
    }

    /// Whether a title move leaves every book with its own key.
    fn retitle_unique_exec(&self, ids: &Vec<i64>, author: &Option<String>, series: &Option<String>) -> (r: bool)
        requires
            self.files_ok(),
        ensures
            r == retitle_unique(self, ids@, opt_view(*author), opt_view(*series)),
    {
        let n = self.books.len();
        let mut owned: Vec<bool> = Vec::new();
        let mut k: usize = 0;
        while k < n
            invariant
                n == self.books@.len(),
                k <= n,
                self.files_ok(),
                owned@.len() == k,
                forall|q: int| 0 <= q < k ==> owned@[q] == owns_target(self.files@, ids@, (#[trigger] self.books@[q]).id),
            decreases n - k,
        {
            let o = self.owns_target_exec(ids, self.books[k].id);
            owned.push(o);
            k = k + 1;
        }
        let mut j: usize = 0;
        while j < n
            invariant
                n == self.books@.len(),
                j <= n,
                owned@.len() == n,
                forall|q: int| 0 <= q < n ==> owned@[q] == owns_target(self.files@, ids@, (#[trigger] self.books@[q]).id),
                forall|p: int, q: int|
                    0 <= p < q < j ==> !#[trigger] clash_after(self, ids@, opt_view(*author), opt_view(*series), p, q),
            decreases n - j,
        {
            let mut i: usize = 0;
            while i < j
                invariant
                    n == self.books@.len(),
                    i <= j < n,
                    owned@.len() == n,
                    forall|q: int| 0 <= q < n ==> owned@[q] == owns_target(self.files@, ids@, (#[trigger] self.books@[q]).id),
                    forall|p: int, q: int|
                        0 <= p < q < j ==> !#[trigger] clash_after(self, ids@, opt_view(*author), opt_view(*series), p, q),
                    forall|p: int| 0 <= p < i ==> !#[trigger] clash_after(self, ids@, opt_view(*author), opt_view(*series), p, j as int),
                decreases j - i,
            {
                let c = self.clash_after_exec(i, j, owned[i], owned[j], author, series);
                proof {
                    assert(owned@[i as int] == owns_target(self.files@, ids@, self.books@[i as int].id));
                    assert(owned@[j as int] == owns_target(self.files@, ids@, self.books@[j as int].id));
                }
                if c {
                    proof {
                        assert(clash_after(self, ids@, opt_view(*author), opt_view(*series), i as int, j as int));
                    }
                    return false;
                }
                i = i + 1;
            }
            j = j + 1;
        }
        true
    }

    /// Gives the books that hold a file row of a staged file in `ids` the given
    /// author and series (the series also becomes the title).
    fn retitle_books(&mut self, ids: &Vec<i64>, author: &Option<String>, series: &Option<String>)
        requires
            old(self).linked(),
        ensures
            final(self).linked(),
            retitled_books(final(self), ids@, opt_view(*author), opt_view(*series)),
            final(self).books@.len() == old(self).books@.len(),
            forall|i: int|
                0 <= i < old(self).books@.len() ==> (#[trigger] final(self).books@[i]).id == old(self).books@[i].id,
            forall|i: int|
                0 <= i < old(self).books@.len() && !owns_target(old(self).files@, ids@, old(self).books@[i].id)
                    ==> #[trigger] final(self).books@[i] == old(self).books@[i],
            forall|i: int|
                0 <= i < old(self).books@.len() ==> (#[trigger] final(self).books@[i]).author@ == author_after(
                    old(self).books@[i],
                    owns_target(old(self).files@, ids@, old(self).books@[i].id),
                    opt_view(*author),
                ) && opt_view(final(self).books@[i].series) == series_after(
                    old(self).books@[i],
                    owns_target(old(self).files@, ids@, old(self).books@[i].id),
                    opt_view(*series),
                ),
            final(self).staged@ == old(self).staged@,
            final(self).files@ == old(self).files@,
            final(self).next_staged_id == old(self).next_staged_id,
            final(self).next_book_id == old(self).next_book_id,
            final(self).next_file_id == old(self).next_file_id,
    {
        let ghost o = self.books@;
        let mut i: usize = 0;
        while i < self.books.len()
            invariant
                i <= self.books@.len(),
                self.books@.len() == o.len(),
                self.linked(),
                self.staged@ == old(self).staged@,
                self.files@ == old(self).files@,
                self.next_staged_id == old(self).next_staged_id,
                self.next_book_id == old(self).next_book_id,
                self.next_file_id == old(self).next_file_id,
                forall|q: int| 0 <= q < o.len() ==> (#[trigger] self.books@[q]).id == o[q].id,
                forall|q: int| i <= q < o.len() ==> #[trigger] self.books@[q] == o[q],
                forall|q: int|
                    0 <= q < i ==> (#[trigger] self.books@[q]).author@ == author_after(
                        o[q],
                        owns_target(self.files@, ids@, o[q].id),
                        opt_view(*author),
                    ) && opt_view(self.books@[q].series) == series_after(
                        o[q],
                        owns_target(self.files@, ids@, o[q].id),
                        opt_view(*series),
                    ),
                forall|q: int|
                    0 <= q < o.len() && !owns_target(self.files@, ids@, o[q].id) ==> #[trigger] self.books@[q] == o[q],
                forall|q: int|
                    0 <= q < i && owns_target(self.files@, ids@, (#[trigger] self.books@[q]).id) ==> (
                    opt_view(*author) matches Some(a) ==> self.books@[q].author@ == a) && (opt_view(
                        *series,
                    ) matches Some(s) ==> opt_view(self.books@[q].series) == Some(s)
                        && self.books@[q].title@ == s),
            decreases o.len() - i,
        {
            let ghost before = self.books@;
            if self.owns_target_exec(ids, self.books[i].id) {
                match author {
                    Some(a) => {
                        self.books[i].author = a.clone();
                    },
                    None => {},
                }
                match series {
                    Some(s) => {
                        self.books[i].series = Some(s.clone());
                        self.books[i].title = s.clone();
                    },
                    None => {},
                }
            }
            proof {
                let now = self.books@;
                assert forall|q: int| 0 <= q < o.len() && q != i implies #[trigger] now[q] == before[q] by {}
                assert forall|a: int, b: int|
                    0 <= a < b < now.len() implies (#[trigger] now[a]).id != (#[trigger] now[b]).id by {
                    assert(before[a].id != before[b].id);
                }
                assert forall|q: int| 0 <= q < now.len() implies 0 <= (#[trigger] now[q]).id
                    < self.next_book_id by {
                    assert(now[q].id == before[q].id);
                }
                assert forall|k: int| 0 <= k < self.files@.len() implies has_book(
                    now,
                    (#[trigger] self.files@[k]).data.book_id,
                ) by {
                    let q = choose|q: int| 0 <= q < before.len() && (#[trigger] before[q]).id == self.files@[k].data.book_id;
                    assert(now[q].id == before[q].id);
                }
            }
            i = i + 1;
        }
    }

    /// Applies one reorganization directive.
    ///
    /// A directive that misses a field its type needs, names an unknown staged
    /// file, or names a destination book that does not exist is rejected, and
    /// nothing changes. Otherwise every targeted staged file becomes
    /// `UserResolved`, and:
    /// - `Rename` gives the targeted staged files and their file rows the new name;
    /// - `MoveTitle` gives them the new author and/or series, and so the books
    ///   that hold them; it is rejected where two books would then share a key;
    /// - `MergeTitle` moves every file row of the books `current_book_ids` into
    ///   `new_book_id`, and those books are removed;
    /// - `FileMove` moves the targeted files to (`new_author`, `new_series`), into
    ///   book `new_book_id`; where that id is negative, into the book that has
    ///   that key, or else one new book; books left without files are removed.
    pub fn apply_change(&mut self, change: &ChangeDto) -> (r: Result<(), ChangeError>)
        requires
            old(self).wf(),
            change_room(old(self), change),
        ensures
            final(self).wf(),
            applies(*old(self), *final(self), *change, r),
    {
        let ids = &change.file_ids;
        match change.change_type {
            ChangeType::Rename => {
                if change.new_filetitle.is_none() || ids.len() == 0 {
                    return Err(ChangeError::MissingFields);
                }
                if !self.all_known(ids) {
                    return Err(ChangeError::UnknownFile);
                }
                let t = change.new_filetitle.as_ref().unwrap();
                self.retarget_staged(ids, &None, &None, &change.new_filetitle);
                self.rename_files(ids, t);
                proof {
                    assert forall|i: int| 0 <= i < self.books@.len() implies book_used(
                        self.files@,
                        (#[trigger] self.books@[i]).id,
                    ) by {
                        assert(book_used(old(self).files@, self.books@[i].id));
                        let k = choose|k: int| 0 <= k < old(self).files@.len() && (#[trigger] old(self).files@[k]).data.book_id == self.books@[i].id;
                        assert(self.files@[k].data.book_id == self.books@[i].id);
                    }
                }
                Ok(())
            },
            ChangeType::MoveTitle => {
                if (change.new_author.is_none() && change.new_series.is_none()) || ids.len() == 0 {
                    return Err(ChangeError::MissingFields);
                }
                if !self.all_known(ids) {
                    return Err(ChangeError::UnknownFile);
                }
                if !self.retitle_unique_exec(ids, &change.new_author, &change.new_series) {
                    return Err(ChangeError::KeyTaken);
                }
                self.retarget_staged(ids, &change.new_author, &change.new_series, &None);
                self.retitle_books(ids, &change.new_author, &change.new_series);
                proof {
                    let nb = self.books@;
                    let a0 = opt_view(change.new_author);
                    let s0 = opt_view(change.new_series);
                    assert forall|x: int, y: int| 0 <= x < y < nb.len() implies !same_key(#[trigger] nb[x], #[trigger] nb[y]) by {
                        assert(!clash_after(old(self), ids@, a0, s0, x, y));
                    }
                }
                proof {
                    assert forall|i: int| 0 <= i < self.books@.len() implies book_used(
                        self.files@,
                        (#[trigger] self.books@[i]).id,
                    ) by {
                        assert(book_used(old(self).files@, old(self).books@[i].id));
                    }
                }
                Ok(())
            },
            ChangeType::MergeTitle => {
                if change.new_book_id.is_none() || change.current_book_ids.is_none() {
                    return Err(ChangeError::MissingFields);
                }
                let dest = change.new_book_id.unwrap();
                if !self.has_book_id(dest) {
                    return Err(ChangeError::UnknownBook);
                }
                let src = change.current_book_ids.as_ref().unwrap();
                self.merge_into(src, dest);
                Ok(())
            },
            ChangeType::FileMove => {
                if change.new_author.is_none() || change.new_series.is_none()
                    || change.new_book_id.is_none() || ids.len() == 0 {
                    return Err(ChangeError::MissingFields);
                }
                if !self.all_known(ids) {
                    return Err(ChangeError::UnknownFile);
                }
                let dest = change.new_book_id.unwrap();
                if dest >= 0 && !self.has_book_id(dest) {
                    return Err(ChangeError::UnknownBook);
                }
                let a = change.new_author.as_ref().unwrap();
                let s = change.new_series.as_ref().unwrap();
                let bid = self.file_move(ids, a, s, dest);
                proof {
                    if dest < 0 {
                        let aa = change.new_author->0@;
                        let ss = change.new_series->0@;
                        assert(a@ == aa && s@ == ss);
                        assert(moved_to(old(self), self, ids@, bid));
                        assert(named_key_book(self, bid, aa, ss));
                        if key_book(old(self).books@, aa, ss) {
                            let t = choose|b: i64| named_key_book(old(self), b, aa, ss);
                            assert(named_key_book(old(self), t, aa, ss));
                            let i1 = choose|i: int| 0 <= i < old(self).books@.len() && (#[trigger] old(self).books@[i]).id == t
                                && book_has_key(old(self).books@[i], aa, ss);
                            let i2 = choose|i: int| 0 <= i < old(self).books@.len() && (#[trigger] old(self).books@[i]).id == bid
                                && book_has_key(old(self).books@[i], aa, ss);
                            if i1 < i2 {
                                assert(!same_key(old(self).books@[i1], old(self).books@[i2]));
                            } else if i2 < i1 {
                                assert(!same_key(old(self).books@[i2], old(self).books@[i1]));
                            }
                            assert(move_target(old(self), aa, ss) == bid);
                            assert(has_book(old(self).books@, bid) && self.next_book_id == old(self).next_book_id);
                        } else {
                            assert(named_book(self, bid, aa, ss));
                        }
                    }
                }
                Ok(())
            },
        }
    }

    /// Applies the directives in order, each seeing the effects of the ones before,
    /// then rebuilds the catalog. Returns the outcome of each directive: a rejected
    /// directive changes nothing and the batch goes on with the next one.
    pub fn apply_changes(&mut self, changes: &Vec<ChangeDto>) -> (r: Vec<Result<(), ChangeError>>)
        requires
            old(self).wf(),
            old(self).next_book_id + changes@.len() + old(self).staged@.len() <= i64::MAX,
            old(self).next_file_id + total_ids(changes@) + old(self).staged@.len()
                <= i64::MAX,
        ensures
            final(self).wf(),
            final(self).built(),
            r@.len() == changes@.len(),
            exists|mids: Seq<Catalog>|
                {
                    &&& mids.len() == changes@.len() + 1
                    &&& mids[0] == *old(self)
                    &&& forall|i: int|
                        0 <= i < changes@.len() ==> #[trigger] applies(
                            mids[i],
                            mids[i + 1],
                            changes@[i],
                            r@[i],
                        )
                    &&& rebuilt(mids[changes@.len() as int], *final(self))
                },
    {
        let mut out: Vec<Result<(), ChangeError>> = Vec::new();
        let ghost mut mids: Seq<Catalog> = seq![*self];
        let mut i: usize = 0;
        while i < changes.len()
            invariant
                i <= changes@.len(),
                out@.len() == i,
                self.wf(),
                self.staged@.len() == old(self).staged@.len(),
                self.next_book_id <= old(self).next_book_id + i,
                self.next_file_id <= old(self).next_file_id + total_ids(changes@.subrange(0, i as int)),
                old(self).next_book_id + changes@.len() + old(self).staged@.len() <= i64::MAX,
                old(self).next_file_id + total_ids(changes@) + old(self).staged@.len() <= i64::MAX,
                mids.len() == i + 1,
                mids[0] == *old(self),
                mids[i as int] == *self,
                forall|q: int|
                    0 <= q < i ==> #[trigger] applies(mids[q], mids[q + 1], changes@[q], out@[q]),
            decreases changes@.len() - i,
        {
            proof {
                lemma_total_ids_prefix(changes@, i as int);
                lemma_total_ids_prefix(changes@, i + 1);
                assert(changes@.subrange(0, i + 1).drop_last() =~= changes@.subrange(0, i as int));
                assert(changes@.subrange(0, i + 1).last() == changes@[i as int]);
                assert(total_ids(changes@.subrange(0, i + 1)) == total_ids(changes@.subrange(0, i as int))
                    + changes@[i as int].file_ids@.len());
            }
            let ghost before = mids;
            let res = self.apply_change(&changes[i]);
            proof {
                mids = mids.push(*self);
                assert(applies(mids[i as int], mids[i + 1], changes@[i as int], res));
            }
            let ghost out0 = out@;
            out.push(res);
            proof {
                assert forall|q: int| 0 <= q < i + 1 implies #[trigger] applies(
                    mids[q],
                    mids[q + 1],
                    changes@[q],
                    out@[q],
                ) by {
                    if q < i {
                        assert(mids[q] == before[q] && mids[q + 1] == before[q + 1]);
                        assert(out@[q] == out0[q]);
                    }
                }
            }
            i = i + 1;
        }
        proof {
            lemma_total_ids_prefix(changes@, changes@.len() as int);
            assert(changes@.subrange(0, changes@.len() as int) =~= changes@);
        }
        let ghost last = *self;
        self.build_catalog();
        proof {
            assert(mids[changes@.len() as int] == last);
        }
        out
    }
}

/// How many target ids the directives name in all.
pub open spec fn total_ids(cs: Seq<ChangeDto>) -> int
    decreases cs.len(),
{
    if cs.len() == 0 {
        0
    } else {
        total_ids(cs.drop_last()) + cs.last().file_ids@.len()
    }
}

proof fn lemma_total_ids_prefix(cs: Seq<ChangeDto>, i: int)
    requires
        0 <= i <= cs.len(),
    ensures
        0 <= total_ids(cs.subrange(0, i)) <= total_ids(cs),
    decreases cs.len(),
{
    if cs.len() > 0 {
        if i < cs.len() {
            lemma_total_ids_prefix(cs.drop_last(), i);
            assert(cs.drop_last().subrange(0, i) =~= cs.subrange(0, i));
        } else {
            assert(cs.subrange(0, i) =~= cs);
            lemma_total_ids_prefix(cs.drop_last(), i - 1);
        }
    }
}

} // verus!
