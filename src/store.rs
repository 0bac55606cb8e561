use vstd::prelude::*;
use crate::catalog::{Catalog, StagedFile, FileMetadata, FileScanCacheFilePaths, has_staged, has_book};
use crate::model::opt_view;
use crate::model::FileScanCacheView;
use crate::status::ResolvedStatus;

verus! {

impl Catalog {
    /// The id and path of every staged file, in store order.
    pub fn known_paths(&self) -> (r: Vec<FileScanCacheFilePaths>)
        ensures
            r@.len() == self.staged@.len(),
            forall|i: int|
                0 <= i < r@.len() ==> (#[trigger] r@[i]).id == self.staged@[i].id && r@[i].file_path@
                    == self.staged@[i].meta.file_path@,
    {
        let mut out: Vec<FileScanCacheFilePaths> = Vec::new();
        let mut i: usize = 0;
        while i < self.staged.len()
            invariant
                i <= self.staged@.len(),
                out@.len() == i,
                forall|q: int|
                    0 <= q < i ==> (#[trigger] out@[q]).id == self.staged@[q].id && out@[q].file_path@
                        == self.staged@[q].meta.file_path@,
            decreases self.staged@.len() - i,
        {
            out.push(
                FileScanCacheFilePaths {
                    id: self.staged[i].id,
                    file_path: self.staged[i].meta.file_path.clone(),
                },
            );
            i = i + 1;
        }
        out
    }

    /// Sets the status of the staged files with ids in `ids`; the rest is unchanged.
    /// Doing it twice is the same as doing it once.
    pub fn set_resolve_status(&mut self, ids: &Vec<i64>, status: ResolvedStatus)
        requires
            old(self).wf(),
        ensures
            final(self).wf(),
            final(self).staged@.len() == old(self).staged@.len(),
            forall|i: int|
                0 <= i < old(self).staged@.len() ==> (#[trigger] final(self).staged@[i]).id == old(
                    self,
                ).staged@[i].id && final(self).staged@[i].meta@ == if ids@.contains(
                    old(self).staged@[i].id,
                ) {
                    FileScanCacheView { resolve_status: status, ..old(self).staged@[i].meta@ }
                } else {
                    old(self).staged@[i].meta@
                },
            final(self).books@ == old(self).books@,
            final(self).files@ == old(self).files@,
            final(self).next_staged_id == old(self).next_staged_id,
            final(self).next_book_id == old(self).next_book_id,
            final(self).next_file_id == old(self).next_file_id,
    {
        let ghost o = self.staged@;
        let mut i: usize = 0;
        while i < self.staged.len()
            invariant
                i <= self.staged@.len(),
                self.staged@.len() == o.len(),
                o == old(self).staged@,
                self.wf(),
                self.books@ == old(self).books@,
                self.files@ == old(self).files@,
                self.next_staged_id == old(self).next_staged_id,
                self.next_book_id == old(self).next_book_id,
                self.next_file_id == old(self).next_file_id,
                forall|q: int| 0 <= q < o.len() ==> (#[trigger] self.staged@[q]).id == o[q].id
                    && self.staged@[q].meta.file_path@ == o[q].meta.file_path@,
                forall|q: int| i <= q < o.len() ==> #[trigger] self.staged@[q] == o[q],
                forall|q: int|
                    0 <= q < i ==> (#[trigger] self.staged@[q]).meta@ == if ids@.contains(o[q].id) {
                        FileScanCacheView { resolve_status: status, ..o[q].meta@ }
                    } else {
                        o[q].meta@
                    },
            decreases o.len() - i,
        {
            let ghost before = self.staged@;
            let mut hit = false;
            let mut k: usize = 0;
            while k < ids.len()
                invariant
                    k <= ids@.len(),
                    hit == exists|p: int| 0 <= p < k && ids@[p] == before[i as int].id,
                    i < before.len(),
                    before == self.staged@,
                decreases ids@.len() - k,
            {
                if ids[k] == self.staged[i].id {
                    hit = true;
                }
                k = k + 1;
            }
            if hit {
                self.staged[i].meta.resolve_status = status;
            }
            proof {
                let now = self.staged@;
                assert forall|q: int| 0 <= q < o.len() && q != i implies #[trigger] now[q] == before[q] by {}
                assert forall|a: int, b: int|
                    0 <= a < b < now.len() implies (#[trigger] now[a]).id != (#[trigger] now[b]).id
                    && now[a].meta.file_path@ != now[b].meta.file_path@ by {
                    assert(before[a].id != before[b].id);
                }
                assert forall|q: int| 0 <= q < now.len() implies 0 <= (#[trigger] now[q]).id
                    < self.next_staged_id by {
                    assert(now[q].id == before[q].id);
                }
                assert forall|k: int| 0 <= k < self.files@.len() implies has_staged(
                    now,
                    (#[trigger] self.files@[k]).data.file_id->0,
                ) by {
                    let q = choose|q: int|
                        0 <= q < before.len() && (#[trigger] before[q]).id == self.files@[k].data.file_id->0;
                    assert(now[q].id == before[q].id);
                }
            }
            i = i + 1;
        }
    }
}

/// One catalog file as the browsing view shows it, with its book's author,
/// series and title.
pub struct FileInfo {
    pub id: i64,
    pub author: String,
    pub title: String,
    pub series: String,
    pub file_path: String,
    pub path_parent: String,
    pub file_name: String,
}

/// An empty label reads "unknown".
pub open spec fn label(x: Seq<char>) -> Seq<char> {
    if x.len() == 0 {
        "unknown"@
    } else {
        x
    }
}

pub open spec fn series_text(o: Option<String>) -> Seq<char> {
    match o {
        Some(x) => x@,
        None => Seq::empty(),
    }
}

/// `info` shows file row `f` of catalog `c`.
pub open spec fn shows(c: &Catalog, f: FileMetadata, info: FileInfo) -> bool {
    &&& info.id == f.data.file_id->0
    &&& info.file_name@ == f.data.file_name@
    &&& info.file_path@ == f.data.file_path@
    &&& exists|b: int|
        0 <= b < c.books@.len() && (#[trigger] c.books@[b]).id == f.data.book_id && info.author@
            == label(c.books@[b].author@) && info.title@ == c.books@[b].title@ && info.series@
            == label(series_text(c.books@[b].series))
    &&& exists|i: int|
        0 <= i < c.staged@.len() && (#[trigger] c.staged@[i]).id == f.data.file_id->0
            && info.path_parent@ == c.staged@[i].meta.path_parent@
}

fn label_of(x: &String) -> (r: String)
    ensures
        r@ == label(x@),
{
    if x.as_str().is_empty() {
        String::from_str("unknown")
    } else {
        x.clone()
    }
}

impl Catalog {
    /// Every catalog file with its book and directory, in file-row order; an
    /// empty author or series shows as "unknown".
    pub fn file_infos(&self) -> (r: Vec<FileInfo>)
        requires
            self.wf(),
        ensures
            r@.len() == self.files@.len(),
            forall|k: int| 0 <= k < r@.len() ==> shows(self, self.files@[k], #[trigger] r@[k]),
    {
        let mut out: Vec<FileInfo> = Vec::new();
        let mut k: usize = 0;
        while k < self.files.len()
            invariant
                self.wf(),
                k <= self.files@.len(),
                out@.len() == k,
                forall|q: int| 0 <= q < k ==> shows(self, self.files@[q], #[trigger] out@[q]),
            decreases self.files@.len() - k,
        {
            let f = &self.files[k];
            let bid = f.data.book_id;
            let sid = match f.data.file_id {
                Some(x) => x,
                None => 0,
            };
            proof {
                assert(has_book(self.books@, bid));
                assert(has_staged(self.staged@, sid));
            }
            let mut b: usize = 0;
            while b < self.books.len() && self.books[b].id != bid
                invariant
                    b <= self.books@.len(),
                    has_book(self.books@, bid),
                    forall|q: int| 0 <= q < b ==> (#[trigger] self.books@[q]).id != bid,
                decreases self.books@.len() - b,
            {
                b = b + 1;
            }
            let mut si: usize = 0;
            while si < self.staged.len() && self.staged[si].id != sid
                invariant
                    si <= self.staged@.len(),
                    has_staged(self.staged@, sid),
                    forall|q: int| 0 <= q < si ==> (#[trigger] self.staged@[q]).id != sid,
                decreases self.staged@.len() - si,
            {
                si = si + 1;
            }
            if b >= self.books.len() || si >= self.staged.len() {
                proof {
                    if b >= self.books@.len() {
                        let m = choose|m: int| 0 <= m < self.books@.len() && (#[trigger] self.books@[m]).id == bid;
                        assert(self.books@[m].id != bid);
                    } else {
                        let m = choose|m: int| 0 <= m < self.staged@.len() && (#[trigger] self.staged@[m]).id == sid;
                        assert(self.staged@[m].id != sid);
                    }
                }
                return out;
            }
            let book = &self.books[b];
            let series = match &book.series {
                Some(x) => label_of(x),
                None => String::from_str("unknown"),
            };
            let info = FileInfo {
                id: sid,
                author: label_of(&book.author),
                title: book.title.clone(),
                series,
                file_path: f.data.file_path.clone(),
                path_parent: self.staged[si].meta.path_parent.clone(),
                file_name: f.data.file_name.clone(),
            };
            proof {
                assert(self.books@[b as int].id == bid);
                assert(self.staged@[si as int].id == sid);
                assert(info.series@ == label(series_text(self.books@[b as int].series)));
                assert(shows(self, self.files@[k as int], info));
            }
            let ghost prev = out@;
            out.push(info);
            proof {
                assert(out@[k as int] == info);
                assert forall|q: int| 0 <= q < k implies #[trigger] out@[q] == prev[q] by {}
            }
            k = k + 1;
        }
        out
    }
}

/// One series of an author in the browsing view, with its files.
pub struct BookInfo {
    pub series: String,
    pub files: Vec<FileInfo>,
}

/// One author in the browsing view, with its series.
pub struct AuthorInfo {
    pub author: String,
    pub books: Vec<BookInfo>,
}

/// Every file of every group of `groups` is one of `infos` with the group's labels.
pub open spec fn groups_sound(groups: Seq<AuthorInfo>, infos: Seq<FileInfo>) -> bool {
    forall|a: int, b: int, f: int|
        0 <= a < groups.len() && 0 <= b < groups[a].books@.len() && 0 <= f
            < groups[a].books@[b].files@.len() ==> {
            let x = #[trigger] groups[a].books@[b].files@[f];
            &&& infos.contains(x)
            &&& x.author@ == groups[a].author@
            &&& x.series@ == groups[a].books@[b].series@
        }
}

/// Author labels are distinct, and so are the series labels of each author.
pub open spec fn groups_distinct(groups: Seq<AuthorInfo>) -> bool {
    &&& forall|a: int, c: int|
        0 <= a < c < groups.len() ==> (#[trigger] groups[a]).author@ != (#[trigger] groups[c]).author@
    &&& forall|a: int, b: int, d: int|
        0 <= a < groups.len() && 0 <= b < d < groups[a].books@.len() ==> (
        #[trigger] groups[a].books@[b]).series@ != (#[trigger] groups[a].books@[d]).series@
}

/// `x` stands in the group of its author and series.
pub open spec fn placed(groups: Seq<AuthorInfo>, x: FileInfo) -> bool {
    exists|a: int, b: int|
        0 <= a < groups.len() && 0 <= b < groups[a].books@.len() && (#[trigger] groups[a].books@[b]).series@
            == x.series@ && groups[a].author@ == x.author@ && groups[a].books@[b].files@.contains(x)
}

/// How many files the series `bs` list in all.
pub open spec fn book_files(bs: Seq<BookInfo>) -> int
    decreases bs.len(),
{
    if bs.len() == 0 {
        0
    } else {
        book_files(bs.drop_last()) + bs.last().files@.len()
    }
}

/// How many files the groups `gs` list in all.
pub open spec fn total_files(gs: Seq<AuthorInfo>) -> int
    decreases gs.len(),
{
    if gs.len() == 0 {
        0
    } else {
        total_files(gs.drop_last()) + book_files(gs.last().books@)
    }
}

proof fn lemma_book_files_update(bs: Seq<BookInfo>, i: int, b: BookInfo)
    requires
        0 <= i < bs.len(),
    ensures
        book_files(bs.update(i, b)) == book_files(bs) - bs[i].files@.len() + b.files@.len(),
    decreases bs.len(),
{
    let u = bs.update(i, b);
    if i == bs.len() - 1 {
        assert(u.drop_last() =~= bs.drop_last());
    } else {
        lemma_book_files_update(bs.drop_last(), i, b);
        assert(u.drop_last() =~= bs.drop_last().update(i, b));
    }
}

proof fn lemma_book_files_push(bs: Seq<BookInfo>, b: BookInfo)
    ensures
        book_files(bs.push(b)) == book_files(bs) + b.files@.len(),
{
    assert(bs.push(b).drop_last() =~= bs);
}

proof fn lemma_total_files_update(gs: Seq<AuthorInfo>, i: int, g: AuthorInfo)
    requires
        0 <= i < gs.len(),
    ensures
        total_files(gs.update(i, g)) == total_files(gs) - book_files(gs[i].books@) + book_files(g.books@),
    decreases gs.len(),
{
    let u = gs.update(i, g);
    if i == gs.len() - 1 {
        assert(u.drop_last() =~= gs.drop_last());
    } else {
        lemma_total_files_update(gs.drop_last(), i, g);
        assert(u.drop_last() =~= gs.drop_last().update(i, g));
    }
}

proof fn lemma_total_files_push(gs: Seq<AuthorInfo>, g: AuthorInfo)
    ensures
        total_files(gs.push(g)) == total_files(gs) + book_files(g.books@),
{
    assert(gs.push(g).drop_last() =~= gs);
}

/// Groups file views by author, then by series, keeping their order. Every view
/// is listed once: the groups list as many files as there are views.
pub fn group_infos(infos: Vec<FileInfo>) -> (r: Vec<AuthorInfo>)
    ensures
        groups_sound(r@, infos@),
        groups_distinct(r@),
        forall|k: int| 0 <= k < infos@.len() ==> placed(r@, #[trigger] infos@[k]),
        total_files(r@) == infos@.len(),
{
    let ghost all = infos@;
    let mut rest = infos;
    let mut groups: Vec<AuthorInfo> = Vec::new();
    let n = rest.len();
    let mut j: usize = 0;
    while j < n
        invariant
            n == all.len(),
            j <= n,
            rest@ == all.subrange(j as int, n as int),
            groups_sound(groups@, all),
            groups_distinct(groups@),
            forall|k: int| 0 <= k < j ==> placed(groups@, #[trigger] all[k]),
            total_files(groups@) == j,
        decreases n - j,
    {
        let x = rest.remove(0);
        proof {
            assert(x == all[j as int]);
            assert(rest@ =~= all.subrange(j + 1, n as int));
            assert(all.contains(x));
        }
        let mut a: usize = 0;
        while a < groups.len() && groups[a].author != x.author
            invariant
                a <= groups@.len(),
                forall|q: int| 0 <= q < a ==> (#[trigger] groups@[q]).author@ != x.author@,
            decreases groups@.len() - a,
        {
            a = a + 1;
        }
        if a == groups.len() {
            let g = AuthorInfo { author: x.author.clone(), books: Vec::new() };
            let ghost g0 = groups@;
            groups.push(g);
            proof {
                lemma_total_files_push(g0, g);
                assert(book_files(g.books@) == 0);
                assert forall|q: int| 0 <= q < g0.len() implies #[trigger] groups@[q] == g0[q] by {}
                assert forall|k: int| 0 <= k < j implies placed(groups@, #[trigger] all[k]) by {
                    let (p, b) = choose|p: int, b: int|
                        0 <= p < g0.len() && 0 <= b < g0[p].books@.len() && (#[trigger] g0[p].books@[b]).series@
                            == all[k].series@ && g0[p].author@ == all[k].author@
                            && g0[p].books@[b].files@.contains(all[k]);
                    assert(groups@[p] == g0[p]);
                }
            }
        }
        let ghost ga = groups@;
        let mut b: usize = 0;
        while b < groups[a].books.len() && groups[a].books[b].series != x.series
            invariant
                a < groups@.len(),
                groups@ == ga,
                b <= groups@[a as int].books@.len(),
                forall|q: int| 0 <= q < b ==> (#[trigger] groups@[a as int].books@[q]).series@ != x.series@,
            decreases groups@[a as int].books@.len() - b,
        {
            b = b + 1;
        }
        if b == groups[a].books.len() {
            let bi = BookInfo { series: x.series.clone(), files: Vec::new() };
            let ghost g1 = groups@;
            groups[a].books.push(bi);
            proof {
                assert(groups@ =~= g1.update(a as int, groups@[a as int]));
                lemma_total_files_update(g1, a as int, groups@[a as int]);
                lemma_book_files_push(g1[a as int].books@, bi);
                assert(groups@[a as int].books@ =~= g1[a as int].books@.push(bi));
            }
        }
        let ghost gb = groups@;
        groups[a].books[b].files.push(x);
        proof {
            let gn = groups@;
            assert(gn =~= gb.update(a as int, gn[a as int]));
            lemma_total_files_update(gb, a as int, gn[a as int]);
            assert(gn[a as int].books@ =~= gb[a as int].books@.update(b as int, gn[a as int].books@[b as int]));
            lemma_book_files_update(gb[a as int].books@, b as int, gn[a as int].books@[b as int]);
            assert(gn[a as int].author@ == x.author@);
            assert(gn[a as int].books@[b as int].series@ == x.series@);
            assert(gn[a as int].books@[b as int].files@.last() == x);
            assert(placed(gn, x));
            assert forall|k: int| 0 <= k < j implies placed(gn, #[trigger] all[k]) by {
                let (p, q) = choose|p: int, q: int|
                    0 <= p < ga.len() && 0 <= q < ga[p].books@.len() && (#[trigger] ga[p].books@[q]).series@
                        == all[k].series@ && ga[p].author@ == all[k].author@
                        && ga[p].books@[q].files@.contains(all[k]);
                let w = choose|w: int| 0 <= w < ga[p].books@[q].files@.len() && ga[p].books@[q].files@[w] == all[k];
                if p != a {
                    assert(gn[p] == ga[p]);
                } else if q != b {
                    assert(gn[p].books@[q] == ga[p].books@[q]);
                } else {
                    assert(gn[p].books@[q].files@[w] == all[k]);
                }
            }
        }
        j = j + 1;
    }
    groups
}

impl Catalog {
    /// The browsing view: the catalog's files grouped by author, then series.
    pub fn get_grouped_files(&self) -> (r: Vec<AuthorInfo>)
        requires
            self.wf(),
        ensures
            exists|infos: Seq<FileInfo>|
                {
                    &&& infos.len() == self.files@.len()
                    &&& forall|k: int| 0 <= k < infos.len() ==> shows(self, self.files@[k], #[trigger] infos[k])
                    &&& groups_sound(r@, infos)
                    &&& groups_distinct(r@)
                    &&& forall|k: int| 0 <= k < infos.len() ==> placed(r@, #[trigger] infos[k])
                    &&& total_files(r@) == infos.len()
                },
    {
        let infos = self.file_infos();
        let ghost iv = infos@;
        let r = group_infos(infos);
        proof {
            assert(iv.len() == self.files@.len());
        }
        r
    }
}

/// Sum of the durations of the file rows of book `bid` (a missing duration
/// counts 0).
pub open spec fn duration_sum(files: Seq<FileMetadata>, bid: i64) -> int
    decreases files.len(),
{
    if files.len() == 0 {
        0
    } else {
        duration_sum(files.drop_last(), bid) + if files.last().data.book_id == bid {
            match files.last().data.duration {
                Some(d) => d as int,
                None => 0int,
            }
        } else {
            0int
        }
    }
}

/// How many staged files lack an author or a clean series, and so wait for
/// manual grouping.
pub open spec fn ungrouped(s: Seq<StagedFile>) -> int
    decreases s.len(),
{
    if s.len() == 0 {
        0
    } else {
        ungrouped(s.drop_last()) + if s.last().meta.author is None || s.last().meta.clean_series is None {
            1int
        } else {
            0int
        }
    }
}

impl Catalog {
    /// The aggregate duration of book `bid`: the sum of its files' durations.
    pub fn book_duration(&self, bid: i64) -> (r: i128)
        ensures
            r == duration_sum(self.files@, bid),
    {
        let mut sum: i128 = 0;
        let mut k: usize = 0;
        while k < self.files.len()
            invariant
                k <= self.files@.len(),
                sum == duration_sum(self.files@.subrange(0, k as int), bid),
                -(k as int) * 0x8000_0000_0000_0000 <= sum <= (k as int) * 0x8000_0000_0000_0000,
            decreases self.files@.len() - k,
        {
            proof {
                let p = self.files@.subrange(0, k + 1);
                assert(p.drop_last() =~= self.files@.subrange(0, k as int));
                assert(p.last() == self.files@[k as int]);
                assert((k as int) < 0x1_0000_0000_0000_0000);
                assert((k as int + 1) * 0x8000_0000_0000_0000 <= 0x8000_0000_0000_0000_0000_0000_0000_0000) by (nonlinear_arith)
                    requires (k as int) < 0x1_0000_0000_0000_0000;
                assert((k as int + 1) * 0x8000_0000_0000_0000 == (k as int) * 0x8000_0000_0000_0000 + 0x8000_0000_0000_0000) by (nonlinear_arith);
            }
            if self.files[k].data.book_id == bid {
                if let Some(d) = self.files[k].data.duration {
                    sum = sum + d as i128;
                }
            }
            k = k + 1;
        }
        proof {
            assert(self.files@.subrange(0, self.files@.len() as int) =~= self.files@);
        }
        sum
    }

    /// How many staged files wait for manual grouping.
    pub fn ungrouped_count(&self) -> (r: usize)
        ensures
            r == ungrouped(self.staged@),
    {
        let mut n: usize = 0;
        let mut i: usize = 0;
        while i < self.staged.len()
            invariant
                i <= self.staged@.len(),
                n == ungrouped(self.staged@.subrange(0, i as int)),
                n <= i,
            decreases self.staged@.len() - i,
        {
            proof {
                let p = self.staged@.subrange(0, i + 1);
                assert(p.drop_last() =~= self.staged@.subrange(0, i as int));
                assert(p.last() == self.staged@[i as int]);
            }
            if self.staged[i].meta.author.is_none() || self.staged[i].meta.clean_series.is_none() {
                n = n + 1;
            }
            i = i + 1;
        }
        proof {
            assert(self.staged@.subrange(0, self.staged@.len() as int) =~= self.staged@);
        }
        n
    }
}

} // verus!
