use vstd::prelude::*;
use crate::keep::{keep_where, lemma_keep_where, lemma_keep_all, lemma_keep_distinct, retain_marked};
use crate::model::{FileScanCache, opt_view};
use crate::status::ResolvedStatus;

verus! {

/// A catalog book, keyed by (author, series).
pub struct AudioBookRow {
    pub id: i64,
    pub author: String,
    pub series: Option<String>,
    pub title: String,
    pub files_location: String,
    pub duration: i64,
    pub cover_art: Option<String>,
    pub metadata: Option<String>,
}

/// A playable track of a book; `file_id` is the staged file it came from.
pub struct BaseFileMetadata {
    pub book_id: i64,
    pub file_id: Option<i64>,
    pub file_name: String,
    pub file_path: String,
    pub duration: Option<i64>,
    pub channels: Option<i64>,
    pub sample_rate: Option<i64>,
    pub bitrate: Option<i64>,
}

/// A file row about to be placed in a book.
pub type CreateFileMetadata = BaseFileMetadata;

/// A catalog file row.
pub struct FileMetadata {
    pub id: i64,
    pub data: BaseFileMetadata,
}

/// A staged file with its store id.
pub struct StagedFile {
    pub id: i64,
    pub meta: FileScanCache,
}

/// An id and path of a staged file.
pub struct FileScanCacheFilePaths {
    pub id: i64,
    pub file_path: String,
}

/// The staging store and the book/file catalog derived from it.
pub struct Catalog {
    pub staged: Vec<StagedFile>,
    pub books: Vec<AudioBookRow>,
    pub files: Vec<FileMetadata>,
    pub next_staged_id: i64,
    pub next_book_id: i64,
    pub next_file_id: i64,
}

pub open spec fn has_staged(s: Seq<StagedFile>, id: i64) -> bool {
    exists|i: int| 0 <= i < s.len() && (#[trigger] s[i]).id == id
}

pub open spec fn has_book(b: Seq<AudioBookRow>, id: i64) -> bool {
    exists|i: int| 0 <= i < b.len() && (#[trigger] b[i]).id == id
}

/// Some file row belongs to book `id`.
pub open spec fn book_used(f: Seq<FileMetadata>, id: i64) -> bool {
    exists|k: int| 0 <= k < f.len() && (#[trigger] f[k]).data.book_id == id
}

/// Some file row came from staged file `id`.
pub open spec fn has_file_for(f: Seq<FileMetadata>, id: i64) -> bool {
    exists|k: int| 0 <= k < f.len() && (#[trigger] f[k]).data.file_id == Some(id)
}

/// The staged file at `path`, if any.
pub open spec fn has_path(s: Seq<StagedFile>, path: Seq<char>) -> bool {
    exists|i: int| 0 <= i < s.len() && (#[trigger] s[i]).meta.file_path@ == path
}

impl Catalog {
    pub open spec fn staged_ok(&self) -> bool {
        &&& forall|i: int, j: int|
            0 <= i < j < self.staged@.len() ==> (#[trigger] self.staged@[i]).id != (
            #[trigger] self.staged@[j]).id && self.staged@[i].meta.file_path@
                != self.staged@[j].meta.file_path@
        &&& forall|i: int|
            0 <= i < self.staged@.len() ==> 0 <= (#[trigger] self.staged@[i]).id
                < self.next_staged_id
    }

    pub open spec fn books_ok(&self) -> bool {
        &&& forall|i: int, j: int|
            0 <= i < j < self.books@.len() ==> (#[trigger] self.books@[i]).id != (
            #[trigger] self.books@[j]).id
        &&& forall|i: int|
            0 <= i < self.books@.len() ==> 0 <= (#[trigger] self.books@[i]).id < self.next_book_id
    }

    /// No two books share an (author, series) key.
    pub open spec fn keys_ok(&self) -> bool {
        forall|i: int, j: int|
            0 <= i < j < self.books@.len() ==> !same_key(#[trigger] self.books@[i], #[trigger] self.books@[j])
    }

    pub open spec fn files_ok(&self) -> bool {
        &&& forall|i: int, j: int|
            0 <= i < j < self.files@.len() ==> (#[trigger] self.files@[i]).id != (
            #[trigger] self.files@[j]).id && self.files@[i].data.file_id
                != self.files@[j].data.file_id
        &&& forall|k: int|
            0 <= k < self.files@.len() ==> 0 <= (#[trigger] self.files@[k]).id
                < self.next_file_id && self.files@[k].data.file_id is Some
    }

    /// Every file row points to an existing staged file and an existing book.
    pub open spec fn links_ok(&self) -> bool {
        forall|k: int|
            0 <= k < self.files@.len() ==> has_staged(
                self.staged@,
                (#[trigger] self.files@[k]).data.file_id->0,
            ) && has_book(self.books@, self.files@[k].data.book_id)
    }

    /// No book is left without files.
    pub open spec fn no_orphans(&self) -> bool {
        forall|i: int| 0 <= i < self.books@.len() ==> book_used(self.files@, (#[trigger] self.books@[i]).id)
    }

    pub open spec fn wf(&self) -> bool {
        &&& self.staged_ok()
        &&& self.books_ok()
        &&& self.keys_ok()
        &&& self.files_ok()
        &&& self.links_ok()
        &&& self.no_orphans()
        &&& 0 <= self.next_staged_id
        &&& 0 <= self.next_book_id
        &&& 0 <= self.next_file_id
    }

    /// Room for `n` more rows of each kind.
    pub open spec fn room(&self, n: int) -> bool {
        &&& self.next_staged_id + n <= i64::MAX
        &&& self.next_book_id + n <= i64::MAX
        &&& self.next_file_id + n <= i64::MAX
    }

    /// An empty store and catalog.
    pub fn new() -> (r: Catalog)
        ensures
            r.wf(),
            r.staged@.len() == 0,
            r.books@.len() == 0,
            r.files@.len() == 0,
            r.next_staged_id == 0 && r.next_book_id == 0 && r.next_file_id == 0,
    {
        Catalog {
            staged: Vec::new(),
            books: Vec::new(),
            files: Vec::new(),
            next_staged_id: 0,
            next_book_id: 0,
            next_file_id: 0,
        }
    }

    /// Whether some file row belongs to book `id`.
    fn book_in_use(&self, id: i64) -> (r: bool)
        ensures
            r == book_used(self.files@, id),
    {
        let mut k: usize = 0;
        while k < self.files.len()
            invariant
                k <= self.files@.len(),
                forall|q: int| 0 <= q < k ==> (#[trigger] self.files@[q]).data.book_id != id,
            decreases self.files@.len() - k,
        {
            if self.files[k].data.book_id == id {
                return true;
            }
            k = k + 1;
        }
        false
    }

    /// Removes every book that no file row belongs to.
    pub fn purge_orphans(&mut self)
        ensures
            final(self).staged@ == old(self).staged@,
            final(self).files@ == old(self).files@,
            final(self).next_staged_id == old(self).next_staged_id,
            final(self).next_book_id == old(self).next_book_id,
            final(self).next_file_id == old(self).next_file_id,
            forall|b: AudioBookRow|
                final(self).books@.contains(b) <==> old(self).books@.contains(b) && book_used(
                    old(self).files@,
                    b.id,
                ),
            final(self).books@ == keep_where(
                old(self).books@,
                old(self).books@.map_values(|b: AudioBookRow| book_used(old(self).files@, b.id)),
            ),
            old(self).staged_ok() && old(self).books_ok() && old(self).keys_ok() && old(self).files_ok() && old(self).links_ok() && 0 <= old(self).next_staged_id && 0 <= old(self).next_book_id && 0
                <= old(self).next_file_id ==> final(self).wf(),
            old(self).wf() ==> final(self).books@ == old(self).books@,
    {
        let ghost pred = |b: AudioBookRow| book_used(self.files@, b.id);
        let mut mask: Vec<bool> = Vec::new();
        let mut i: usize = 0;
        while i < self.books.len()
            invariant
                i <= self.books@.len(),
                mask@.len() == i,
                forall|q: int| 0 <= q < i ==> mask@[q] == book_used(self.files@, (#[trigger] self.books@[q]).id),
            decreases self.books@.len() - i,
        {
            let used = self.book_in_use(self.books[i].id);
            mask.push(used);
            i = i + 1;
        }
        proof {
            assert forall|q: int| 0 <= q < mask@.len() implies mask@[q] == pred(#[trigger] self.books@[q]) by {}
            assert(mask@ =~= self.books@.map_values(pred));
            lemma_keep_where(self.books@, mask@, pred);
        }
        let ghost old_books = self.books@;
        retain_marked(&mut self.books, &mask);
        proof {
            let r = self.books@;
            assert forall|b: AudioBookRow| r.contains(b) <==> old_books.contains(b) && pred(b) by {
                if r.contains(b) {
                    let k = choose|k: int| 0 <= k < r.len() && r[k] == b;
                    assert(pred(r[k]));
                }
                if old_books.contains(b) && pred(b) {
                    let i = choose|i: int| 0 <= i < old_books.len() && old_books[i] == b;
                    assert(mask@[i]);
                }
            }
            assert forall|i: int| 0 <= i < r.len() implies book_used(self.files@, (#[trigger] r[i]).id) by {
                assert(pred(r[i]));
            }
            if old(self).keys_ok() {
                let kf = |b: AudioBookRow| (b.author@, opt_view(b.series));
                assert forall|i: int, j: int| 0 <= i < j < old_books.len() implies kf(#[trigger] old_books[i])
                    != kf(#[trigger] old_books[j]) by {
                    assert(!same_key(old_books[i], old_books[j]));
                }
                lemma_keep_distinct(old_books, mask@, kf);
                assert forall|i: int, j: int| 0 <= i < j < r.len() implies !same_key(#[trigger] r[i], #[trigger] r[j]) by {
                    assert(kf(r[i]) != kf(r[j]));
                }
            }
            if old(self).books_ok() {
                lemma_keep_distinct(old_books, mask@, |b: AudioBookRow| b.id);
                assert forall|i: int| 0 <= i < r.len() implies 0 <= (#[trigger] r[i]).id
                    < self.next_book_id by {
                    assert(old_books.contains(r[i]));
                    let m = choose|m: int| 0 <= m < old_books.len() && old_books[m] == r[i];
                }
            }
            assert forall|k: int| 0 <= k < self.files@.len() && old(self).links_ok() implies has_book(
                r,
                (#[trigger] self.files@[k]).data.book_id,
            ) by {
                let bid = self.files@[k].data.book_id;
                let m = choose|m: int| 0 <= m < old_books.len() && old_books[m].id == bid;
                assert(pred(old_books[m]));
                assert(r.contains(old_books[m]));
                let q = choose|q: int| 0 <= q < r.len() && r[q] == old_books[m];
            }
            if old(self).wf() {
                assert forall|i: int| 0 <= i < old_books.len() implies mask@[i] by {
                    assert(book_used(self.files@, old_books[i].id));
                }
                lemma_keep_all(old_books, mask@);
            }
        }
    }

    /// Whether `id` is among `ids`.
    fn contains_id(ids: &Vec<i64>, id: i64) -> (r: bool)
        ensures
            r == ids@.contains(id),
    {
        let mut k: usize = 0;
        while k < ids.len()
            invariant
                k <= ids@.len(),
                forall|q: int| 0 <= q < k ==> ids@[q] != id,
            decreases ids@.len() - k,
        {
            if ids[k] == id {
                return true;
            }
            k = k + 1;
        }
        false
    }

    /// Removes the staged files with the given ids, the file rows that came from
    /// them, and then every book left without files. Returns how many staged
    /// files were removed.
    pub fn delete_staged(&mut self, ids: &Vec<i64>) -> (removed: u64)
        requires
            old(self).wf(),
        ensures
            removed == old(self).staged@.len() - final(self).staged@.len(),
            ids@.len() == 0 ==> *final(self) == *old(self),
            final(self).wf(),
            forall|r: StagedFile|
                final(self).staged@.contains(r) <==> old(self).staged@.contains(r) && !ids@.contains(
                    r.id,
                ),
            forall|f: FileMetadata|
                final(self).files@.contains(f) <==> old(self).files@.contains(f) && !ids@.contains(
                    f.data.file_id->0,
                ),
            forall|b: AudioBookRow|
                final(self).books@.contains(b) <==> old(self).books@.contains(b) && book_used(
                    final(self).files@,
                    b.id,
                ),
            final(self).next_staged_id == old(self).next_staged_id,
            final(self).next_book_id == old(self).next_book_id,
            final(self).next_file_id == old(self).next_file_id,
            final(self).staged@.len() <= old(self).staged@.len(),
    {
        if ids.len() == 0 {
            return 0;
        }
        let before = self.staged.len();
        let ghost spred = |r: StagedFile| !ids@.contains(r.id);
        let ghost fpred = |f: FileMetadata| !ids@.contains(f.data.file_id->0);
        let mut smask: Vec<bool> = Vec::new();
        let mut i: usize = 0;
        while i < self.staged.len()
            invariant
                i <= self.staged@.len(),
                smask@.len() == i,
                forall|q: int| 0 <= q < i ==> smask@[q] == !ids@.contains((#[trigger] self.staged@[q]).id),
            decreases self.staged@.len() - i,
        {
            let gone = Self::contains_id(ids, self.staged[i].id);
            smask.push(!gone);
            i = i + 1;
        }
        let mut fmask: Vec<bool> = Vec::new();
        let mut k: usize = 0;
        while k < self.files.len()
            invariant
                k <= self.files@.len(),
                fmask@.len() == k,
                self.files_ok(),
                forall|q: int|
                    0 <= q < k ==> fmask@[q] == !ids@.contains(
                        (#[trigger] self.files@[q]).data.file_id->0,
                    ),
            decreases self.files@.len() - k,
        {
            let fid = match self.files[k].data.file_id {
                Some(x) => x,
                None => 0,
            };
            let gone = Self::contains_id(ids, fid);
            fmask.push(!gone);
            k = k + 1;
        }
        let ghost old_staged = self.staged@;
        let ghost old_files = self.files@;
        proof {
            lemma_keep_where(old_staged, smask@, spred);
            lemma_keep_where(old_files, fmask@, fpred);
            lemma_keep_distinct(old_staged, smask@, |r: StagedFile| r.id);
            lemma_keep_distinct(old_staged, smask@, |r: StagedFile| r.meta.file_path@);
            lemma_keep_distinct(old_files, fmask@, |f: FileMetadata| f.id);
            lemma_keep_distinct(old_files, fmask@, |f: FileMetadata| f.data.file_id);
        }
        retain_marked(&mut self.staged, &smask);
        retain_marked(&mut self.files, &fmask);
        proof {
            let ns = self.staged@;
            let nf = self.files@;
            assert forall|r: StagedFile| ns.contains(r) <==> old_staged.contains(r) && spred(r) by {
                if ns.contains(r) {
                    let q = choose|q: int| 0 <= q < ns.len() && ns[q] == r;
                    assert(spred(ns[q]));
                }
                if old_staged.contains(r) && spred(r) {
                    let m = choose|m: int| 0 <= m < old_staged.len() && old_staged[m] == r;
                    assert(smask@[m]);
                }
            }
            assert forall|f: FileMetadata| nf.contains(f) <==> old_files.contains(f) && fpred(f) by {
                if nf.contains(f) {
                    let q = choose|q: int| 0 <= q < nf.len() && nf[q] == f;
                    assert(fpred(nf[q]));
                }
                if old_files.contains(f) && fpred(f) {
                    let m = choose|m: int| 0 <= m < old_files.len() && old_files[m] == f;
                    assert(fmask@[m]);
                }
            }
            assert forall|i: int| 0 <= i < ns.len() implies 0 <= (#[trigger] ns[i]).id
                < self.next_staged_id by {
                assert(ns.contains(ns[i]));
            }
            assert forall|q: int| 0 <= q < nf.len() implies 0 <= (#[trigger] nf[q]).id
                < self.next_file_id && nf[q].data.file_id is Some && has_staged(
                ns,
                nf[q].data.file_id->0,
            ) && has_book(self.books@, nf[q].data.book_id) by {
                assert(nf.contains(nf[q]));
                let m = choose|m: int| 0 <= m < old_files.len() && old_files[m] == nf[q];
                let sid = nf[q].data.file_id->0;
                let j = choose|j: int| 0 <= j < old_staged.len() && old_staged[j].id == sid;
                assert(spred(old_staged[j]));
                assert(ns.contains(old_staged[j]));
                let jj = choose|jj: int| 0 <= jj < ns.len() && ns[jj] == old_staged[j];
            }
        }
        self.purge_orphans();
        (before - self.staged.len()) as u64
    }
}

/// A staged file takes part in grouping: not ignored, with an author and a clean series.
pub open spec fn eligible(r: StagedFile) -> bool {
    r.meta.resolve_status != ResolvedStatus::Ignored && r.meta.author is Some
        && r.meta.clean_series is Some
}

pub open spec fn author_key(r: StagedFile) -> Seq<char> {
    r.meta.author->0@
}

pub open spec fn series_key(r: StagedFile) -> Seq<char> {
    r.meta.clean_series->0@
}

pub open spec fn book_has_key(b: AudioBookRow, a: Seq<char>, s: Seq<char>) -> bool {
    b.author@ == a && opt_view(b.series) == Some(s)
}

/// Index of the first book with key (a, s).
pub open spec fn first_with_key(books: Seq<AudioBookRow>, a: Seq<char>, s: Seq<char>) -> Option<int>
    decreases books.len(),
{
    if books.len() == 0 {
        None
    } else {
        match first_with_key(books.drop_last(), a, s) {
            Some(i) => Some(i),
            None => if book_has_key(books.last(), a, s) {
                Some(books.len() - 1)
            } else {
                None
            },
        }
    }
}

/// The file row of `r` belongs to the first book with `r`'s key.
pub open spec fn grouped(files: Seq<FileMetadata>, books: Seq<AudioBookRow>, r: StagedFile) -> bool {
    exists|k: int|
        0 <= k < files.len() && (#[trigger] files[k]).data.file_id == Some(r.id) && match first_with_key(
            books,
            author_key(r),
            series_key(r),
        ) {
            Some(b) => books[b].id == files[k].data.book_id,
            None => false,
        }
}

pub proof fn lemma_first_with_key(books: Seq<AudioBookRow>, a: Seq<char>, s: Seq<char>)
    ensures
        match first_with_key(books, a, s) {
            Some(i) => 0 <= i < books.len() && book_has_key(books[i], a, s) && forall|j: int|
                0 <= j < i ==> !book_has_key(#[trigger] books[j], a, s),
            None => forall|j: int| 0 <= j < books.len() ==> !book_has_key(#[trigger] books[j], a, s),
        },
    decreases books.len(),
{
    if books.len() > 0 {
        let p = books.drop_last();
        lemma_first_with_key(p, a, s);
        match first_with_key(p, a, s) {
            Some(i) => {
                assert(books[i] == p[i]);
                assert forall|j: int| 0 <= j < i implies !book_has_key(#[trigger] books[j], a, s) by {
                    assert(books[j] == p[j]);
                }
            },
            None => {
                assert forall|j: int| 0 <= j < books.len() - 1 implies !book_has_key(
                    #[trigger] books[j],
                    a,
                    s,
                ) by {
                    assert(books[j] == p[j]);
                }
            },
        }
    }
}

proof fn lemma_first_key_push(books: Seq<AudioBookRow>, b: AudioBookRow, a: Seq<char>, s: Seq<char>)
    ensures
        first_with_key(books, a, s) is Some ==> first_with_key(books.push(b), a, s) == first_with_key(
            books,
            a,
            s,
        ),
        first_with_key(books, a, s) is None && book_has_key(b, a, s) ==> first_with_key(
            books.push(b),
            a,
            s,
        ) == Some(books.len() as int),
        first_with_key(books, a, s) is None && !book_has_key(b, a, s) ==> first_with_key(
            books.push(b),
            a,
            s,
        ) is None,
{
    assert(books.push(b).drop_last() =~= books);
}

proof fn lemma_first_key_keep(books: Seq<AudioBookRow>, mask: Seq<bool>, a: Seq<char>, s: Seq<char>)
    requires
        mask.len() >= books.len(),
        first_with_key(books, a, s) matches Some(b) ==> mask[b],
    ensures
        match first_with_key(books, a, s) {
            Some(b) => first_with_key(keep_where(books, mask), a, s) matches Some(c) && 0 <= c
                < keep_where(books, mask).len() && keep_where(books, mask)[c] == books[b],
            None => first_with_key(keep_where(books, mask), a, s) is None,
        },
    decreases books.len(),
{
    if books.len() > 0 {
        let p = books.drop_last();
        lemma_first_key_keep(p, mask, a, s);
        lemma_first_with_key(p, a, s);
        let kp = keep_where(p, mask);
        lemma_keep_where(p, mask, |x: AudioBookRow| true);
        lemma_first_key_push(kp, books.last(), a, s);
        if mask[books.len() - 1] {
            assert(keep_where(books, mask) == kp.push(books.last()));
            match first_with_key(p, a, s) {
                Some(b) => {
                    let c = first_with_key(kp, a, s)->0;
                    assert(kp.push(books.last())[c] == kp[c]);
                    assert(books[b] == p[b]);
                },
                None => {
                    if book_has_key(books.last(), a, s) {
                        assert(kp.push(books.last())[kp.len() as int] == books.last());
                    }
                },
            }
        } else {
            assert(keep_where(books, mask) == kp);
            match first_with_key(p, a, s) {
                Some(b) => {
                    assert(books[b] == p[b]);
                },
                None => {},
            }
        }
    }
}

impl Catalog {
    /// Every staged file that takes part in grouping has its file row in the first
    /// book with its key.
    pub open spec fn built(&self) -> bool {
        forall|i: int|
            0 <= i < self.staged@.len() && eligible(#[trigger] self.staged@[i]) ==> grouped(
                self.files@,
                self.books@,
                self.staged@[i],
            )
    }

    /// Index of the first book with key (a, s).
    pub(crate) fn find_book(&self, a: &String, s: &String) -> (r: Option<usize>)
        ensures
            match r {
                Some(i) => first_with_key(self.books@, a@, s@) == Some(i as int),
                None => first_with_key(self.books@, a@, s@) is None,
            },
    {
        proof {
            lemma_first_with_key(self.books@, a@, s@);
        }
        let mut i: usize = 0;
        while i < self.books.len()
            invariant
                i <= self.books@.len(),
                forall|j: int| 0 <= j < i ==> !book_has_key(#[trigger] self.books@[j], a@, s@),
            decreases self.books@.len() - i,
        {
            let b = &self.books[i];
            let same_series = match &b.series {
                Some(bs) => *bs == *s,
                None => false,
            };
            if b.author == *a && same_series {
                proof {
                    lemma_first_with_key(self.books@, a@, s@);
                    assert(book_has_key(self.books@[i as int], a@, s@));
                    match first_with_key(self.books@, a@, s@) {
                        Some(i0) => {
                            if i0 < i {
                                assert(!book_has_key(self.books@[i0], a@, s@));
                            } else if i0 > i {
                                assert(!book_has_key(self.books@[i as int], a@, s@));
                            }
                        },
                        None => {
                            assert(!book_has_key(self.books@[i as int], a@, s@));
                        },
                    }
                }
                return Some(i);
            }
            i = i + 1;
        }
        None
    }

    /// Index of the file row that came from staged file `sid`.
    pub(crate) fn find_file_row(&self, sid: i64) -> (r: Option<usize>)
        ensures
            match r {
                Some(k) => k < self.files@.len() && self.files@[k as int].data.file_id == Some(sid),
                None => !has_file_for(self.files@, sid),
            },
    {
        let mut k: usize = 0;
        while k < self.files.len()
            invariant
                k <= self.files@.len(),
                forall|q: int| 0 <= q < k ==> (#[trigger] self.files@[q]).data.file_id != Some(sid),
            decreases self.files@.len() - k,
        {
            let same = match self.files[k].data.file_id {
                Some(x) => x == sid,
                None => false,
            };
            if same {
                return Some(k);
            }
            k = k + 1;
        }
        None
    }
}

pub fn clone_opt(o: &Option<String>) -> (r: Option<String>)
    ensures
        r == *o,
{
    match o {
        Some(s) => Some(s.clone()),
        None => None,
    }
}

proof fn lemma_grouped_push_book(
    files: Seq<FileMetadata>,
    books: Seq<AudioBookRow>,
    b: AudioBookRow,
    r: StagedFile,
)
    requires
        grouped(files, books, r),
    ensures
        grouped(files, books.push(b), r),
{
    let k = choose|k: int|
        0 <= k < files.len() && (#[trigger] files[k]).data.file_id == Some(r.id) && match first_with_key(
            books,
            author_key(r),
            series_key(r),
        ) {
            Some(x) => books[x].id == files[k].data.book_id,
            None => false,
        };
    lemma_first_key_push(books, b, author_key(r), series_key(r));
    lemma_first_with_key(books, author_key(r), series_key(r));
    let x = first_with_key(books, author_key(r), series_key(r))->0;
    assert(books.push(b)[x] == books[x]);
}

/// `grouped` only looks at the file row of `r`.
proof fn lemma_grouped_same_row(
    files: Seq<FileMetadata>,
    files2: Seq<FileMetadata>,
    books: Seq<AudioBookRow>,
    r: StagedFile,
)
    requires
        grouped(files, books, r),
        files.len() <= files2.len(),
        forall|k: int|
            0 <= k < files.len() && (#[trigger] files[k]).data.file_id == Some(r.id) ==> files2[k]
                == files[k],
    ensures
        grouped(files2, books, r),
{
    let k = choose|k: int|
        0 <= k < files.len() && (#[trigger] files[k]).data.file_id == Some(r.id) && match first_with_key(
            books,
            author_key(r),
            series_key(r),
        ) {
            Some(x) => books[x].id == files[k].data.book_id,
            None => false,
        };
    assert(files2[k] == files[k]);
}


/// Two books share a key.
pub open spec fn same_key(b1: AudioBookRow, b2: AudioBookRow) -> bool {
    b1.author@ == b2.author@ && opt_view(b1.series) == opt_view(b2.series)
}

/// `staged[i]` is the first staged file of its group.
pub open spec fn first_member(staged: Seq<StagedFile>, i: int) -> bool {
    &&& 0 <= i < staged.len()
    &&& eligible(staged[i])
    &&& forall|q: int|
        0 <= q < i && eligible(#[trigger] staged[q]) ==> !(author_key(staged[q]) == author_key(
            staged[i],
        ) && series_key(staged[q]) == series_key(staged[i]))
}

/// Book `b` was made from the first staged file of a group: its key, its series
/// as title, its directory as location, its cover.
pub open spec fn seeded(staged: Seq<StagedFile>, b: AudioBookRow) -> bool {
    exists|i: int|
        first_member(staged, i) && book_has_key(b, author_key(#[trigger] staged[i]), series_key(staged[i]))
            && b.title@ == series_key(staged[i]) && b.files_location@ == staged[i].meta.path_parent@
            && opt_view(b.cover_art) == opt_view(staged[i].meta.cover_art)
}

/// The books from `n0` on were seeded, and none shares a key with a book before it.
pub open spec fn fresh_books(p: Seq<AudioBookRow>, n0: int, staged: Seq<StagedFile>) -> bool {
    &&& 0 <= n0 <= p.len()
    &&& forall|m: int| n0 <= m < p.len() ==> seeded(staged, #[trigger] p[m])
    &&& forall|a: int, b: int|
        0 <= a < b < p.len() && n0 <= b ==> !same_key(#[trigger] p[a], #[trigger] p[b])
}

/// What a rebuild of `c0` leaves in `c1`.
pub open spec fn rebuilt(c0: Catalog, c1: Catalog) -> bool {
    &&& c1.wf()
    &&& c1.built()
    &&& c1.staged@ == c0.staged@
    &&& c1.next_staged_id == c0.next_staged_id
    &&& c0.next_book_id <= c1.next_book_id <= c0.next_book_id + c0.staged@.len()
    &&& c0.next_file_id <= c1.next_file_id <= c0.next_file_id + c0.staged@.len()
    &&& (c0.built() ==> c1.books@ == c0.books@ && c1.files@ == c0.files@ && c1.next_book_id
        == c0.next_book_id && c1.next_file_id == c0.next_file_id)
    &&& forall|b: AudioBookRow|
        c0.books@.contains(b) && book_used(c1.files@, b.id) ==> c1.books@.contains(b)
    &&& forall|b: AudioBookRow|
        c1.books@.contains(b) && !c0.books@.contains(b) ==> seeded(c1.staged@, b)
    &&& forall|b1: AudioBookRow, b2: AudioBookRow|
        c1.books@.contains(b1) && c1.books@.contains(b2) && b1.id != b2.id && same_key(b1, b2)
            ==> c0.books@.contains(b1) && c0.books@.contains(b2)
}

proof fn lemma_fresh_push(
    p: Seq<AudioBookRow>,
    b: AudioBookRow,
    n0: int,
    files: Seq<FileMetadata>,
    staged: Seq<StagedFile>,
    i: int,
)
    requires
        fresh_books(p, n0, staged),
        0 <= i < staged.len(),
        eligible(staged[i]),
        first_with_key(p, author_key(staged[i]), series_key(staged[i])) is None,
        forall|q: int| 0 <= q < i && eligible(#[trigger] staged[q]) ==> grouped(files, p, staged[q]),
        book_has_key(b, author_key(staged[i]), series_key(staged[i])),
        b.title@ == series_key(staged[i]),
        b.files_location@ == staged[i].meta.path_parent@,
        opt_view(b.cover_art) == opt_view(staged[i].meta.cover_art),
    ensures
        fresh_books(p.push(b), n0, staged),
{
    let r = staged[i];
    lemma_first_with_key(p, author_key(r), series_key(r));
    assert forall|q: int| 0 <= q < i && eligible(#[trigger] staged[q]) implies !(author_key(staged[q])
        == author_key(r) && series_key(staged[q]) == series_key(r)) by {
        assert(grouped(files, p, staged[q]));
    }
    assert(first_member(staged, i));
    let np = p.push(b);
    assert(np[p.len() as int] == b);
    assert(seeded(staged, np[p.len() as int]));
    assert forall|m: int| n0 <= m < np.len() implies seeded(staged, #[trigger] np[m]) by {
        if m < p.len() {
            assert(np[m] == p[m]);
        }
    }
    assert forall|a: int, c: int| 0 <= a < c < np.len() && n0 <= c implies !same_key(
        #[trigger] np[a],
        #[trigger] np[c],
    ) by {
        assert(np[a] == p[a]);
        if c == p.len() {
            assert(!book_has_key(p[a], author_key(r), series_key(r)));
        } else {
            assert(np[c] == p[c]);
        }
    }
}

proof fn lemma_purged_books(
    p: Seq<AudioBookRow>,
    fin: Seq<AudioBookRow>,
    old_books: Seq<AudioBookRow>,
    files: Seq<FileMetadata>,
    staged: Seq<StagedFile>,
)
    requires
        fresh_books(p, old_books.len() as int, staged),
        p.subrange(0, old_books.len() as int) == old_books,
        forall|b: AudioBookRow| fin.contains(b) <==> p.contains(b) && book_used(files, b.id),
        forall|a: int, c: int| 0 <= a < c < p.len() ==> (#[trigger] p[a]).id != (#[trigger] p[c]).id,
    ensures
        forall|b: AudioBookRow| old_books.contains(b) && book_used(files, b.id) ==> fin.contains(b),
        forall|b: AudioBookRow| fin.contains(b) && !old_books.contains(b) ==> seeded(staged, b),
        forall|b1: AudioBookRow, b2: AudioBookRow|
            fin.contains(b1) && fin.contains(b2) && b1.id != b2.id && same_key(b1, b2)
                ==> old_books.contains(b1) && old_books.contains(b2),
{
    let n0 = old_books.len() as int;
    assert forall|b: AudioBookRow| old_books.contains(b) && book_used(files, b.id) implies fin.contains(b) by {
        let w = choose|w: int| 0 <= w < n0 && old_books[w] == b;
        assert(p[w] == p.subrange(0, n0)[w]);
        assert(p.contains(b));
    }
    assert forall|b: AudioBookRow| fin.contains(b) && !old_books.contains(b) implies seeded(staged, b) by {
        let m = choose|m: int| 0 <= m < p.len() && p[m] == b;
        if m < n0 {
            assert(p.subrange(0, n0)[m] == p[m]);
            assert(old_books[m] == b);
        }
    }
    assert forall|b1: AudioBookRow, b2: AudioBookRow|
        fin.contains(b1) && fin.contains(b2) && b1.id != b2.id && same_key(b1, b2) implies old_books.contains(b1)
            && old_books.contains(b2) by {
        let m1 = choose|m: int| 0 <= m < p.len() && p[m] == b1;
        let m2 = choose|m: int| 0 <= m < p.len() && p[m] == b2;
        assert(m1 != m2);
        if m1 < m2 {
            assert(m2 < n0);
        } else {
            assert(same_key(p[m2], p[m1]));
            assert(m1 < n0);
        }
        assert(p.subrange(0, n0)[m1] == p[m1]);
        assert(p.subrange(0, n0)[m2] == p[m2]);
        assert(old_books[m1] == b1);
        assert(old_books[m2] == b2);
    }
}

impl Catalog {
    /// Groups every eligible staged file by (author, clean series): each one gets a
    /// file row in the first book with that key, a book being created where none
    /// has it; books left without files are then removed.
    pub fn build_catalog(&mut self)
        requires
            old(self).wf(),
            old(self).next_book_id + old(self).staged@.len() <= i64::MAX,
            old(self).next_file_id + old(self).staged@.len() <= i64::MAX,
        ensures
            rebuilt(*old(self), *final(self)),
    {
        let n = self.staged.len();
        let mut i: usize = 0;
        while i < n
            invariant
                n == self.staged@.len(),
                self.staged@ == old(self).staged@,
                i <= n,
                self.staged_ok(),
                self.books_ok(),
                self.keys_ok(),
                self.files_ok(),
                self.links_ok(),
                self.next_staged_id == old(self).next_staged_id,
                old(self).next_book_id <= self.next_book_id <= old(self).next_book_id + i,
                old(self).next_file_id <= self.next_file_id <= old(self).next_file_id + i,
                old(self).next_book_id + n <= i64::MAX,
                old(self).next_file_id + n <= i64::MAX,
                0 <= old(self).next_book_id,
                0 <= old(self).next_file_id,
                forall|q: int|
                    0 <= q < i && eligible(#[trigger] self.staged@[q]) ==> grouped(
                        self.files@,
                        self.books@,
                        self.staged@[q],
                    ),
                old(self).built() ==> self.books@ == old(self).books@ && self.files@ == old(self).files@ && self.next_book_id == old(self).next_book_id && self.next_file_id
                    == old(self).next_file_id,
                self.books@.subrange(0, old(self).books@.len() as int) == old(self).books@,
                fresh_books(self.books@, old(self).books@.len() as int, self.staged@),
            decreases n - i,
        {
            let ghost r = self.staged@[i as int];
            let sid = self.staged[i].id;
            let ignored = match self.staged[i].meta.resolve_status {
                ResolvedStatus::Ignored => true,
                _ => false,
            };
            let key = match (&self.staged[i].meta.author, &self.staged[i].meta.clean_series) {
                (Some(a), Some(s)) => Some((a.clone(), s.clone())),
                _ => None,
            };
            if !ignored && key.is_some() {
                let (a, s) = key.unwrap();
                assert(eligible(r));
                assert(a@ == author_key(r) && s@ == series_key(r));
                let bi = match self.find_book(&a, &s) {
                    Some(bi) => bi,
                    None => {
                        let b = AudioBookRow {
                            id: self.next_book_id,
                            author: a.clone(),
                            series: Some(s.clone()),
                            title: s.clone(),
                            files_location: self.staged[i].meta.path_parent.clone(),
                            duration: 0,
                            cover_art: clone_opt(&self.staged[i].meta.cover_art),
                            metadata: clone_opt(&self.staged[i].meta.raw_metadata),
                        };
                        let ghost old_books = self.books@;
                        proof {
                            assert(book_has_key(b, author_key(r), series_key(r)));
                            lemma_fresh_push(old_books, b, old(self).books@.len() as int, self.files@, self.staged@, i as int);
                            assert(old_books.push(b).subrange(0, old(self).books@.len() as int) =~= old_books.subrange(0, old(self).books@.len() as int));
                            lemma_first_key_push(old_books, b, author_key(r), series_key(r));
                            assert forall|q: int|
                                0 <= q < i && eligible(#[trigger] self.staged@[q]) implies grouped(
                                self.files@,
                                old_books.push(b),
                                self.staged@[q],
                            ) by {
                                lemma_grouped_push_book(self.files@, old_books, b, self.staged@[q]);
                            }
                        }
                        self.books.push(b);
                        self.next_book_id = self.next_book_id + 1;
                        proof {
                            let nb = self.books@;
                            assert forall|x: int, y: int| 0 <= x < y < nb.len() implies !same_key(#[trigger] nb[x], #[trigger] nb[y]) by {
                                assert(nb[x] == old_books.push(b)[x]);
                                if y < old_books.len() {
                                    assert(nb[x] == old_books[x] && nb[y] == old_books[y]);
                                }
                            }
                            assert forall|k: int| 0 <= k < self.files@.len() implies has_book(
                                self.books@,
                                (#[trigger] self.files@[k]).data.book_id,
                            ) by {
                                let m = choose|m: int|
                                    0 <= m < old_books.len() && old_books[m].id
                                        == self.files@[k].data.book_id;
                                assert(self.books@[m] == old_books[m]);
                            }
                        }
                        self.books.len() - 1
                    },
                };
                proof {
                    assert(first_with_key(self.books@, author_key(r), series_key(r)) == Some(
                        bi as int,
                    ));
                    lemma_first_with_key(self.books@, author_key(r), series_key(r));
                }
                let bid = self.books[bi].id;
                let ghost books_now = self.books@;
                let ghost files_before = self.files@;
                proof {
                    assert(has_book(self.books@, bid)) by {
                        assert(self.books@[bi as int].id == bid);
                    }
                    assert(has_staged(self.staged@, sid)) by {
                        assert(self.staged@[i as int].id == sid);
                    }
                }
                match self.find_file_row(sid) {
                    Some(k) => {
                        if self.files[k].data.book_id != bid {
                            self.files[k].data.book_id = bid;
                            proof {
                                assert(self.files@ == files_before.update(
                                    k as int,
                                    self.files@[k as int],
                                ));
                            }
                        }
                        proof {
                            assert forall|q: int|
                                0 <= q < i && eligible(#[trigger] self.staged@[q]) implies grouped(
                                self.files@,
                                self.books@,
                                self.staged@[q],
                            ) by {
                                let rq = self.staged@[q];
                                assert(rq.id != sid);
                                assert forall|kk: int|
                                    0 <= kk < files_before.len() && (
                                    #[trigger] files_before[kk]).data.file_id == Some(rq.id) implies self.files@[kk]
                                    == files_before[kk] by {
                                    assert(kk != k);
                                }
                                lemma_grouped_same_row(files_before, self.files@, self.books@, rq);
                            }
                            assert(grouped(self.files@, self.books@, r)) by {
                                assert(self.files@[k as int].data.file_id == Some(sid));
                            }
                            assert forall|kk: int| 0 <= kk < self.files@.len() implies has_staged(
                                self.staged@,
                                (#[trigger] self.files@[kk]).data.file_id->0,
                            ) && has_book(self.books@, self.files@[kk].data.book_id) by {
                                if kk != k {
                                    assert(self.files@[kk] == files_before[kk]);
                                }
                            }
                        }
                    },
                    None => {
                        let f = FileMetadata {
                            id: self.next_file_id,
                            data: BaseFileMetadata {
                                book_id: bid,
                                file_id: Some(sid),
                                file_name: self.staged[i].meta.file_name.clone(),
                                file_path: self.staged[i].meta.file_path.clone(),
                                duration: self.staged[i].meta.duration,
                                channels: self.staged[i].meta.channels,
                                sample_rate: self.staged[i].meta.sample_rate,
                                bitrate: self.staged[i].meta.bitrate,
                            },
                        };
                        self.files.push(f);
                        self.next_file_id = self.next_file_id + 1;
                        proof {
                            assert(self.files@ == files_before.push(f));
                            assert forall|q: int|
                                0 <= q < i && eligible(#[trigger] self.staged@[q]) implies grouped(
                                self.files@,
                                self.books@,
                                self.staged@[q],
                            ) by {
                                lemma_grouped_same_row(
                                    files_before,
                                    self.files@,
                                    self.books@,
                                    self.staged@[q],
                                );
                            }
                            assert(grouped(self.files@, self.books@, r)) by {
                                assert(self.files@[files_before.len() as int] == f);
                            }
                            assert forall|x: int, y: int|
                                0 <= x < y < self.files@.len() implies (#[trigger] self.files@[x]).id
                                != (#[trigger] self.files@[y]).id && self.files@[x].data.file_id
                                != self.files@[y].data.file_id by {
                                if y == files_before.len() {
                                    assert(self.files@[x] == files_before[x]);
                                }
                            }
                            assert forall|kk: int| 0 <= kk < self.files@.len() implies has_staged(
                                self.staged@,
                                (#[trigger] self.files@[kk]).data.file_id->0,
                            ) && has_book(self.books@, self.files@[kk].data.book_id) by {
                                if kk < files_before.len() {
                                    assert(self.files@[kk] == files_before[kk]);
                                }
                            }
                        }
                    },
                }
            }
            i = i + 1;
        }
        let ghost pre = self.books@;
        let ghost pre_files = self.files@;
        self.purge_orphans();
        proof {
            lemma_purged_books(pre, self.books@, old(self).books@, self.files@, self.staged@);
            let mask = pre.map_values(|b: AudioBookRow| book_used(pre_files, b.id));
            assert forall|q: int|
                0 <= q < self.staged@.len() && eligible(#[trigger] self.staged@[q]) implies grouped(
                self.files@,
                self.books@,
                self.staged@[q],
            ) by {
                let rq = self.staged@[q];
                let k = choose|k: int|
                    0 <= k < pre_files.len() && (#[trigger] pre_files[k]).data.file_id == Some(rq.id)
                        && match first_with_key(pre, author_key(rq), series_key(rq)) {
                        Some(x) => pre[x].id == pre_files[k].data.book_id,
                        None => false,
                    };
                let x = first_with_key(pre, author_key(rq), series_key(rq))->0;
                lemma_first_with_key(pre, author_key(rq), series_key(rq));
                assert(mask[x]);
                lemma_first_key_keep(pre, mask, author_key(rq), series_key(rq));
            }
        }
    }
}

/// Once the catalog is built, any two staged files with equal non-null
/// (author, clean series) that take part in grouping belong to the same book.
pub proof fn lemma_same_key_same_book(c: &Catalog, i: int, j: int, ki: int, kj: int)
    requires
        c.wf(),
        c.built(),
        0 <= i < c.staged@.len(),
        0 <= j < c.staged@.len(),
        eligible(c.staged@[i]),
        eligible(c.staged@[j]),
        author_key(c.staged@[i]) == author_key(c.staged@[j]),
        series_key(c.staged@[i]) == series_key(c.staged@[j]),
        0 <= ki < c.files@.len(),
        0 <= kj < c.files@.len(),
        c.files@[ki].data.file_id == Some(c.staged@[i].id),
        c.files@[kj].data.file_id == Some(c.staged@[j].id),
    ensures
        c.files@[ki].data.book_id == c.files@[kj].data.book_id,
        has_book(c.books@, c.files@[ki].data.book_id),
{
    let ri = c.staged@[i];
    let rj = c.staged@[j];
    assert(grouped(c.files@, c.books@, ri));
    assert(grouped(c.files@, c.books@, rj));
    let k1 = choose|k: int|
        0 <= k < c.files@.len() && (#[trigger] c.files@[k]).data.file_id == Some(ri.id)
            && match first_with_key(c.books@, author_key(ri), series_key(ri)) {
            Some(x) => c.books@[x].id == c.files@[k].data.book_id,
            None => false,
        };
    let k2 = choose|k: int|
        0 <= k < c.files@.len() && (#[trigger] c.files@[k]).data.file_id == Some(rj.id)
            && match first_with_key(c.books@, author_key(rj), series_key(rj)) {
            Some(x) => c.books@[x].id == c.files@[k].data.book_id,
            None => false,
        };
    if k1 != ki {
        if k1 < ki {
            assert(c.files@[k1].data.file_id != c.files@[ki].data.file_id);
        } else {
            assert(c.files@[ki].data.file_id != c.files@[k1].data.file_id);
        }
    }
    if k2 != kj {
        if k2 < kj {
            assert(c.files@[k2].data.file_id != c.files@[kj].data.file_id);
        } else {
            assert(c.files@[kj].data.file_id != c.files@[k2].data.file_id);
        }
    }
}

} // verus!
