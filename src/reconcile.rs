use vstd::prelude::*;
use crate::catalog::{Catalog, StagedFile, has_path, has_staged, has_book};
use crate::model::{FileScanCache, FileScanCacheView};
use crate::status::ResolvedStatus;

verus! {

/// Some record of `found` is at `path`.
pub open spec fn found_path(found: Seq<FileScanCache>, path: Seq<char>) -> bool {
    exists|j: int| 0 <= j < found.len() && (#[trigger] found[j]).file_path@ == path
}

/// No two records of `found` share a path.
pub open spec fn distinct_paths(found: Seq<FileScanCache>) -> bool {
    forall|i: int, j: int|
        0 <= i < j < found.len() ==> (#[trigger] found[i]).file_path@ != (#[trigger] found[j]).file_path@
}

/// A staged file already holds `x`'s path with `x`'s size: the scan leaves it alone.
pub open spec fn unchanged(staged: Seq<StagedFile>, x: FileScanCache) -> bool {
    exists|i: int|
        0 <= i < staged.len() && (#[trigger] staged[i]).meta.file_path@ == x.file_path@
            && staged[i].meta.file_size == x.file_size
}

/// The status a record is stored with: a pinned status of the staged file at its
/// path is kept, anything else becomes `AutoResolved`.
pub open spec fn upsert_status(staged: Seq<StagedFile>, x: FileScanCache) -> ResolvedStatus {
    if exists|i: int|
        0 <= i < staged.len() && (#[trigger] staged[i]).meta.file_path@ == x.file_path@
            && staged[i].meta.resolve_status.spec_is_pinned() {
        let i = choose|i: int|
            0 <= i < staged.len() && (#[trigger] staged[i]).meta.file_path@ == x.file_path@
                && staged[i].meta.resolve_status.spec_is_pinned();
        staged[i].meta.resolve_status
    } else {
        ResolvedStatus::AutoResolved
    }
}

/// How many records of `found` a scan writes.
pub open spec fn n_changed(staged: Seq<StagedFile>, found: Seq<FileScanCache>) -> nat
    decreases found.len(),
{
    if found.len() == 0 {
        0
    } else {
        n_changed(staged, found.drop_last()) + if unchanged(staged, found.last()) {
            0nat
        } else {
            1nat
        }
    }
}

impl Catalog {
    /// The store matches the walk `found` and the catalog is built from it.
    pub open spec fn synced(&self, found: Seq<FileScanCache>) -> bool {
        &&& self.wf()
        &&& self.built()
        &&& forall|i: int|
            0 <= i < self.staged@.len() ==> found_path(found, (#[trigger] self.staged@[i]).meta.file_path@)
        &&& forall|j: int| 0 <= j < found.len() ==> unchanged(self.staged@, #[trigger] found[j])
    }

    /// Index of the staged file at `path`.
    pub fn find_path(&self, path: &String) -> (r: Option<usize>)
        ensures
            match r {
                Some(i) => i < self.staged@.len() && self.staged@[i as int].meta.file_path@ == path@,
                None => !has_path(self.staged@, path@),
            },
    {
        let mut i: usize = 0;
        while i < self.staged.len()
            invariant
                i <= self.staged@.len(),
                forall|q: int| 0 <= q < i ==> (#[trigger] self.staged@[q]).meta.file_path@ != path@,
            decreases self.staged@.len() - i,
        {
            if self.staged[i].meta.file_path == *path {
                return Some(i);
            }
            i = i + 1;
        }
        None
    }

    /// Whether a file seen at `path` with `size` bytes must be probed: no staged
    /// file holds that path with that size.
    pub fn needs_probe(&self, path: &String, size: i64) -> (r: bool)
        requires
            self.wf(),
        ensures
            r == !exists|i: int|
                0 <= i < self.staged@.len() && (#[trigger] self.staged@[i]).meta.file_path@ == path@
                    && self.staged@[i].meta.file_size == size,
    {
        match self.find_path(path) {
            Some(i) => {
                proof {
                    if self.staged@[i as int].meta.file_size != size {
                        assert forall|q: int|
                            0 <= q < self.staged@.len() && (#[trigger] self.staged@[q]).meta.file_path@
                                == path@ implies self.staged@[q].meta.file_size != size by {
                            if q != i {
                                if q < i {
                                    assert(self.staged@[q].meta.file_path@
                                        != self.staged@[i as int].meta.file_path@);
                                } else {
                                    assert(self.staged@[i as int].meta.file_path@
                                        != self.staged@[q].meta.file_path@);
                                }
                            }
                        }
                    }
                }
                self.staged[i].meta.file_size != size
            },
            None => true,
        }
    }
}

/// Some record of `found` has the path and the size of `r`.
pub open spec fn keeps(found: Seq<FileScanCache>, r: StagedFile) -> bool {
    exists|j: int|
        0 <= j < found.len() && (#[trigger] found[j]).file_path@ == r.meta.file_path@
            && found[j].file_size == r.meta.file_size
}

/// The record `x` as stored by a scan over `staged`.
pub open spec fn stored(staged: Seq<StagedFile>, x: FileScanCache) -> FileScanCacheView {
    FileScanCacheView { resolve_status: upsert_status(staged, x), ..x@ }
}

proof fn lemma_n_changed_step(staged: Seq<StagedFile>, all: Seq<FileScanCache>, j: int)
    requires
        0 <= j < all.len(),
    ensures
        n_changed(staged, all.subrange(0, j + 1)) == n_changed(staged, all.subrange(0, j)) + if unchanged(
            staged,
            all[j],
        ) {
            0nat
        } else {
            1nat
        },
{
    assert(all.subrange(0, j + 1).drop_last() =~= all.subrange(0, j));
}

impl Catalog {
    /// Ids of the staged files whose path no record of `found` has.
    fn stale_ids(&self, found: &Vec<FileScanCache>) -> (r: Vec<i64>)
        ensures
            forall|i: int|
                0 <= i < self.staged@.len() ==> (r@.contains((#[trigger] self.staged@[i]).id)
                    <== !found_path(found@, self.staged@[i].meta.file_path@)),
            forall|id: i64|
                r@.contains(id) ==> exists|i: int|
                    0 <= i < self.staged@.len() && (#[trigger] self.staged@[i]).id == id
                        && !found_path(found@, self.staged@[i].meta.file_path@),
    {
        let mut out: Vec<i64> = Vec::new();
        let mut i: usize = 0;
        while i < self.staged.len()
            invariant
                i <= self.staged@.len(),
                forall|q: int|
                    0 <= q < i ==> (out@.contains((#[trigger] self.staged@[q]).id) <== !found_path(
                        found@,
                        self.staged@[q].meta.file_path@,
                    )),
                forall|id: i64|
                    out@.contains(id) ==> exists|q: int|
                        0 <= q < i && (#[trigger] self.staged@[q]).id == id && !found_path(
                            found@,
                            self.staged@[q].meta.file_path@,
                        ),
            decreases self.staged@.len() - i,
        {
            let mut seen = false;
            let mut j: usize = 0;
            while j < found.len()
                invariant
                    i < self.staged@.len(),
                    j <= found@.len(),
                    seen == exists|q: int|
                        0 <= q < j && (#[trigger] found@[q]).file_path@
                            == self.staged@[i as int].meta.file_path@,
                decreases found@.len() - j,
            {
                if found[j].file_path == self.staged[i].meta.file_path {
                    seen = true;
                }
                j = j + 1;
            }
            if !seen {
                let ghost prev = out@;
                out.push(self.staged[i].id);
                proof {
                    assert forall|id: i64| out@.contains(id) implies exists|q: int|
                        0 <= q < i + 1 && (#[trigger] self.staged@[q]).id == id && !found_path(
                            found@,
                            self.staged@[q].meta.file_path@,
                        ) by {
                        if id != self.staged@[i as int].id {
                            assert(prev.contains(id));
                        }
                    }
                    assert(out@[prev.len() as int] == self.staged@[i as int].id);
                    assert forall|q: int|
                        0 <= q < i + 1 implies (out@.contains((#[trigger] self.staged@[q]).id)
                        <== !found_path(found@, self.staged@[q].meta.file_path@)) by {
                        if q < i && prev.contains(self.staged@[q].id) {
                            let w = choose|w: int| 0 <= w < prev.len() && prev[w] == self.staged@[q].id;
                            assert(out@[w] == prev[w]);
                        }
                    }
                }
            } else {
                proof {
                    let w = choose|w: int|
                        0 <= w < j && (#[trigger] found@[w]).file_path@
                            == self.staged@[i as int].meta.file_path@;
                    assert(found_path(found@, self.staged@[i as int].meta.file_path@));
                }
            }
            i = i + 1;
        }
        out
    }
}

/// Each staged file of `s` is a file of `o` with its id and path, or has an id
/// from `n0` on.
#[verifier::opaque]
pub open spec fn fresh_ids(s: Seq<StagedFile>, o: Seq<StagedFile>, n0: int) -> bool {
    forall|i: int|
        0 <= i < s.len() ==> (exists|j: int|
            0 <= j < o.len() && (#[trigger] o[j]).id == s[i].id && o[j].meta.file_path@
                == s[i].meta.file_path@) || (#[trigger] s[i]).id >= n0
}

/// Each file of `o` whose path is in `all` is in `s` with its id and path.
#[verifier::opaque]
pub open spec fn kept_ids(s: Seq<StagedFile>, o: Seq<StagedFile>, all: Seq<FileScanCache>) -> bool {
    forall|j: int|
        0 <= j < o.len() && found_path(all, (#[trigger] o[j]).meta.file_path@) ==> exists|i: int|
            0 <= i < s.len() && (#[trigger] s[i]).id == o[j].id && s[i].meta.file_path@
                == o[j].meta.file_path@
}

proof fn lemma_ids_after_prune(ns: Seq<StagedFile>, o: Seq<StagedFile>, all: Seq<FileScanCache>, n0: int)
    requires
        forall|i: int| 0 <= i < ns.len() ==> o.contains(#[trigger] ns[i]),
        forall|r: StagedFile| o.contains(r) && found_path(all, r.meta.file_path@) ==> ns.contains(r),
    ensures
        fresh_ids(ns, o, n0),
        kept_ids(ns, o, all),
{
    reveal(fresh_ids);
    reveal(kept_ids);
    assert forall|i: int| 0 <= i < ns.len() implies (exists|j: int|
        0 <= j < o.len() && (#[trigger] o[j]).id == ns[i].id && o[j].meta.file_path@
            == ns[i].meta.file_path@) || (#[trigger] ns[i]).id >= n0 by {
        assert(o.contains(ns[i]));
        let j = choose|j: int| 0 <= j < o.len() && o[j] == ns[i];
    }
    assert forall|j: int| 0 <= j < o.len() && found_path(all, (#[trigger] o[j]).meta.file_path@) implies exists|i: int|
        0 <= i < ns.len() && (#[trigger] ns[i]).id == o[j].id && ns[i].meta.file_path@
            == o[j].meta.file_path@ by {
        assert(o.contains(o[j]));
        assert(ns.contains(o[j]));
        let i = choose|i: int| 0 <= i < ns.len() && ns[i] == o[j];
    }
}

proof fn lemma_ids_same_shape(
    s: Seq<StagedFile>,
    now: Seq<StagedFile>,
    o: Seq<StagedFile>,
    all: Seq<FileScanCache>,
    n0: int,
)
    requires
        fresh_ids(s, o, n0),
        kept_ids(s, o, all),
        now.len() == s.len(),
        forall|i: int|
            0 <= i < s.len() ==> (#[trigger] now[i]).id == s[i].id && now[i].meta.file_path@
                == s[i].meta.file_path@,
    ensures
        fresh_ids(now, o, n0),
        kept_ids(now, o, all),
{
    lemma_fresh_same_shape(s, now, o, n0);
    lemma_kept_same_shape(s, now, o, all);
}

proof fn lemma_fresh_same_shape(s: Seq<StagedFile>, now: Seq<StagedFile>, o: Seq<StagedFile>, n0: int)
    requires
        fresh_ids(s, o, n0),
        now.len() == s.len(),
        forall|i: int|
            0 <= i < s.len() ==> (#[trigger] now[i]).id == s[i].id && now[i].meta.file_path@
                == s[i].meta.file_path@,
    ensures
        fresh_ids(now, o, n0),
{
    reveal(fresh_ids);
    assert forall|i: int| 0 <= i < now.len() implies (exists|j: int|
        0 <= j < o.len() && (#[trigger] o[j]).id == now[i].id && o[j].meta.file_path@
            == now[i].meta.file_path@) || (#[trigger] now[i]).id >= n0 by {
        assert(now[i].id == s[i].id);
        assert(s[i].id >= n0 || exists|j: int|
            0 <= j < o.len() && (#[trigger] o[j]).id == s[i].id && o[j].meta.file_path@
                == s[i].meta.file_path@);
    }
}

proof fn lemma_kept_same_shape(s: Seq<StagedFile>, now: Seq<StagedFile>, o: Seq<StagedFile>, all: Seq<FileScanCache>)
    requires
        kept_ids(s, o, all),
        now.len() == s.len(),
        forall|i: int|
            0 <= i < s.len() ==> (#[trigger] now[i]).id == s[i].id && now[i].meta.file_path@
                == s[i].meta.file_path@,
    ensures
        kept_ids(now, o, all),
{
    reveal(kept_ids);
    assert forall|j: int| 0 <= j < o.len() && found_path(all, (#[trigger] o[j]).meta.file_path@) implies exists|i: int|
        0 <= i < now.len() && (#[trigger] now[i]).id == o[j].id && now[i].meta.file_path@
            == o[j].meta.file_path@ by {
        let i = choose|i: int|
            0 <= i < s.len() && (#[trigger] s[i]).id == o[j].id && s[i].meta.file_path@
                == o[j].meta.file_path@;
        assert(now[i].id == s[i].id);
    }
}

proof fn lemma_ids_push(
    s: Seq<StagedFile>,
    row: StagedFile,
    o: Seq<StagedFile>,
    all: Seq<FileScanCache>,
    n0: int,
)
    requires
        fresh_ids(s, o, n0),
        kept_ids(s, o, all),
        row.id >= n0,
    ensures
        fresh_ids(s.push(row), o, n0),
        kept_ids(s.push(row), o, all),
{
    lemma_fresh_push(s, row, o, n0);
    lemma_kept_push(s, row, o, all);
}

proof fn lemma_fresh_push(s: Seq<StagedFile>, row: StagedFile, o: Seq<StagedFile>, n0: int)
    requires
        fresh_ids(s, o, n0),
        row.id >= n0,
    ensures
        fresh_ids(s.push(row), o, n0),
{
    reveal(fresh_ids);
    let now = s.push(row);
    assert forall|i: int| 0 <= i < now.len() implies (exists|j: int|
        0 <= j < o.len() && (#[trigger] o[j]).id == now[i].id && o[j].meta.file_path@
            == now[i].meta.file_path@) || (#[trigger] now[i]).id >= n0 by {
        if i < s.len() {
            assert(now[i] == s[i]);
            assert(s[i].id >= n0 || exists|j: int|
                0 <= j < o.len() && (#[trigger] o[j]).id == s[i].id && o[j].meta.file_path@
                    == s[i].meta.file_path@);
        }
    }
}

proof fn lemma_kept_push(s: Seq<StagedFile>, row: StagedFile, o: Seq<StagedFile>, all: Seq<FileScanCache>)
    requires
        kept_ids(s, o, all),
    ensures
        kept_ids(s.push(row), o, all),
{
    reveal(kept_ids);
    let now = s.push(row);
    assert forall|j: int| 0 <= j < o.len() && found_path(all, (#[trigger] o[j]).meta.file_path@) implies exists|i: int|
        0 <= i < now.len() && (#[trigger] now[i]).id == o[j].id && now[i].meta.file_path@
            == o[j].meta.file_path@ by {
        let i = choose|i: int|
            0 <= i < s.len() && (#[trigger] s[i]).id == o[j].id && s[i].meta.file_path@
                == o[j].meta.file_path@;
        assert(now[i] == s[i]);
    }
}

/// Some record of `all` before `j` is at `path`.
pub open spec fn done_path(all: Seq<FileScanCache>, j: int, path: Seq<char>) -> bool {
    exists|q: int| 0 <= q < j && (#[trigger] all[q]).file_path@ == path
}

/// What holds of the staged files `s` after a scan has handled `all[..j]`, having
/// started from the staged files `o`.
#[verifier::opaque]
pub open spec fn scan_inv(s: Seq<StagedFile>, o: Seq<StagedFile>, all: Seq<FileScanCache>, j: int) -> bool {
    &&& forall|i: int| 0 <= i < s.len() ==> found_path(all, (#[trigger] s[i]).meta.file_path@)
    &&& forall|i: int|
        0 <= i < s.len() ==> done_path(all, j, (#[trigger] s[i]).meta.file_path@) || o.contains(s[i])
    &&& forall|r: StagedFile|
        o.contains(r) && found_path(all, r.meta.file_path@) && !done_path(all, j, r.meta.file_path@)
            ==> s.contains(r)
    &&& forall|r: StagedFile| o.contains(r) && keeps(all, r) ==> s.contains(r)
    &&& forall|q: int| 0 <= q < j ==> unchanged(s, #[trigger] all[q])
    &&& forall|q: int|
        0 <= q < j && !unchanged(o, #[trigger] all[q]) ==> exists|i: int|
            0 <= i < s.len() && (#[trigger] s[i]).meta@ == stored(o, all[q])
}

pub open spec fn unique_paths(s: Seq<StagedFile>) -> bool {
    forall|a: int, b: int|
        0 <= a < b < s.len() ==> (#[trigger] s[a]).meta.file_path@ != (#[trigger] s[b]).meta.file_path@
}

/// A row of `o` at the path of `x` is the only one.
proof fn lemma_unique_row(o: Seq<StagedFile>, m: int, i: int)
    requires
        unique_paths(o),
        0 <= m < o.len(),
        0 <= i < o.len(),
        o[i].meta.file_path@ == o[m].meta.file_path@,
    ensures
        i == m,
{
    if i < m {
        assert(o[i].meta.file_path@ != o[m].meta.file_path@);
    } else if i > m {
        assert(o[m].meta.file_path@ != o[i].meta.file_path@);
    }
}

#[verifier::spinoff_prover]
proof fn lemma_scan_skip(s: Seq<StagedFile>, o: Seq<StagedFile>, all: Seq<FileScanCache>, j: int, idx: int)
    requires
        scan_inv(s, o, all, j),
        0 <= j < all.len(),
        0 <= idx < s.len(),
        s[idx].meta.file_path@ == all[j].file_path@,
        s[idx].meta.file_size == all[j].file_size,
        unchanged(o, all[j]),
    ensures
        scan_inv(s, o, all, j + 1),
{
    reveal(scan_inv);
    assert(unchanged(s, all[j]));
    assert forall|q: int| 0 <= q < j + 1 implies unchanged(s, #[trigger] all[q]) by {}
    assert forall|q: int| 0 <= q < j + 1 && !unchanged(o, #[trigger] all[q]) implies exists|i: int|
        0 <= i < s.len() && (#[trigger] s[i]).meta@ == stored(o, all[q]) by {}
    assert forall|i: int| 0 <= i < s.len() implies done_path(all, j + 1, (#[trigger] s[i]).meta.file_path@)
        || o.contains(s[i]) by {
        if done_path(all, j, s[i].meta.file_path@) {
            let q = choose|q: int| 0 <= q < j && (#[trigger] all[q]).file_path@ == s[i].meta.file_path@;
            assert(0 <= q < j + 1 && all[q].file_path@ == s[i].meta.file_path@);
        }
    }
    assert forall|r: StagedFile|
        o.contains(r) && found_path(all, r.meta.file_path@) && !done_path(all, j + 1, r.meta.file_path@)
            implies s.contains(r) by {
        if done_path(all, j, r.meta.file_path@) {
            let q = choose|q: int| 0 <= q < j && (#[trigger] all[q]).file_path@ == r.meta.file_path@;
            assert(0 <= q < j + 1 && all[q].file_path@ == r.meta.file_path@);
        }
    }
}

#[verifier::spinoff_prover]
proof fn lemma_scan_update(
    s: Seq<StagedFile>,
    now: Seq<StagedFile>,
    o: Seq<StagedFile>,
    all: Seq<FileScanCache>,
    j: int,
    idx: int,
)
    requires
        scan_inv(s, o, all, j),
        distinct_paths(all),
        0 <= j < all.len(),
        0 <= idx < s.len(),
        s[idx].meta.file_path@ == all[j].file_path@,
        s[idx].meta.file_size != all[j].file_size,
        !unchanged(o, all[j]),
        now.len() == s.len(),
        forall|i: int| 0 <= i < s.len() && i != idx ==> now[i] == s[i],
        now[idx].meta@ == stored(o, all[j]),
    ensures
        scan_inv(now, o, all, j + 1),
{
    reveal(scan_inv);
    assert forall|q: int| 0 <= q < j implies (#[trigger] all[q]).file_path@ != all[j].file_path@ by {}
    assert(unchanged(now, all[j])) by {
        assert(now[idx].meta.file_path@ == all[j].file_path@);
    }
    assert forall|q: int| 0 <= q < j + 1 implies unchanged(now, #[trigger] all[q]) by {
        if q < j {
            let i = choose|i: int|
                0 <= i < s.len() && (#[trigger] s[i]).meta.file_path@ == all[q].file_path@
                    && s[i].meta.file_size == all[q].file_size;
            assert(now[i] == s[i]);
        }
    }
    assert forall|q: int| 0 <= q < j + 1 && !unchanged(o, #[trigger] all[q]) implies exists|i: int|
        0 <= i < now.len() && (#[trigger] now[i]).meta@ == stored(o, all[q]) by {
        if q < j {
            let i = choose|i: int| 0 <= i < s.len() && (#[trigger] s[i]).meta@ == stored(o, all[q]);
            assert(s[i].meta.file_path@ == all[q].file_path@);
            assert(now[i] == s[i]);
        } else {
            assert(now[idx].meta@ == stored(o, all[q]));
        }
    }
    assert forall|i: int| 0 <= i < now.len() implies found_path(all, (#[trigger] now[i]).meta.file_path@)
        && (done_path(all, j + 1, now[i].meta.file_path@) || o.contains(now[i])) by {
        if i == idx {
            assert(all[j].file_path@ == now[i].meta.file_path@);
        } else {
            assert(now[i] == s[i]);
            if done_path(all, j, s[i].meta.file_path@) {
                let q = choose|q: int| 0 <= q < j && (#[trigger] all[q]).file_path@ == s[i].meta.file_path@;
                assert(0 <= q < j + 1 && all[q].file_path@ == now[i].meta.file_path@);
            }
        }
    }
    assert forall|r: StagedFile|
        o.contains(r) && found_path(all, r.meta.file_path@) && !done_path(all, j + 1, r.meta.file_path@)
            implies now.contains(r) by {
        if done_path(all, j, r.meta.file_path@) {
            let q = choose|q: int| 0 <= q < j && (#[trigger] all[q]).file_path@ == r.meta.file_path@;
            assert(0 <= q < j + 1 && all[q].file_path@ == r.meta.file_path@);
        } else {
            let i = choose|i: int| 0 <= i < s.len() && s[i] == r;
            if i == idx {
                assert(0 <= j < j + 1 && all[j].file_path@ == r.meta.file_path@);
            }
            assert(now[i] == s[i]);
        }
    }
    assert forall|r: StagedFile| o.contains(r) && keeps(all, r) implies now.contains(r) by {
        let i = choose|i: int| 0 <= i < s.len() && s[i] == r;
        if i == idx {
            let q = choose|q: int|
                0 <= q < all.len() && (#[trigger] all[q]).file_path@ == r.meta.file_path@
                    && all[q].file_size == r.meta.file_size;
            if q < j {
                assert(all[q].file_path@ != all[j].file_path@);
            } else if q > j {
                assert(all[j].file_path@ != all[q].file_path@);
            }
        }
        assert(now[i] == s[i]);
    }
}

#[verifier::spinoff_prover]
proof fn lemma_scan_push(
    s: Seq<StagedFile>,
    row: StagedFile,
    o: Seq<StagedFile>,
    all: Seq<FileScanCache>,
    j: int,
)
    requires
        scan_inv(s, o, all, j),
        distinct_paths(all),
        0 <= j < all.len(),
        row.meta@ == stored(o, all[j]),
    ensures
        scan_inv(s.push(row), o, all, j + 1),
{
    reveal(scan_inv);
    let now = s.push(row);
    assert forall|q: int| 0 <= q < j implies (#[trigger] all[q]).file_path@ != all[j].file_path@ by {}
    assert(now[s.len() as int] == row);
    assert(unchanged(now, all[j])) by {
        assert(now[s.len() as int].meta.file_path@ == all[j].file_path@);
    }
    assert forall|q: int| 0 <= q < j + 1 implies unchanged(now, #[trigger] all[q]) by {
        if q < j {
            let i = choose|i: int|
                0 <= i < s.len() && (#[trigger] s[i]).meta.file_path@ == all[q].file_path@
                    && s[i].meta.file_size == all[q].file_size;
            assert(now[i] == s[i]);
        }
    }
    assert forall|q: int| 0 <= q < j + 1 && !unchanged(o, #[trigger] all[q]) implies exists|i: int|
        0 <= i < now.len() && (#[trigger] now[i]).meta@ == stored(o, all[q]) by {
        if q < j {
            let i = choose|i: int| 0 <= i < s.len() && (#[trigger] s[i]).meta@ == stored(o, all[q]);
            assert(now[i] == s[i]);
        } else {
            assert(now[s.len() as int].meta@ == stored(o, all[q]));
        }
    }
    assert forall|i: int| 0 <= i < now.len() implies found_path(all, (#[trigger] now[i]).meta.file_path@)
        && (done_path(all, j + 1, now[i].meta.file_path@) || o.contains(now[i])) by {
        if i == s.len() {
            assert(all[j].file_path@ == now[i].meta.file_path@);
        } else {
            assert(now[i] == s[i]);
            if done_path(all, j, s[i].meta.file_path@) {
                let q = choose|q: int| 0 <= q < j && (#[trigger] all[q]).file_path@ == s[i].meta.file_path@;
                assert(0 <= q < j + 1 && all[q].file_path@ == now[i].meta.file_path@);
            }
        }
    }
    assert forall|r: StagedFile|
        o.contains(r) && found_path(all, r.meta.file_path@) && !done_path(all, j + 1, r.meta.file_path@)
            implies now.contains(r) by {
        if done_path(all, j, r.meta.file_path@) {
            let q = choose|q: int| 0 <= q < j && (#[trigger] all[q]).file_path@ == r.meta.file_path@;
            assert(0 <= q < j + 1 && all[q].file_path@ == r.meta.file_path@);
        } else {
            let i = choose|i: int| 0 <= i < s.len() && s[i] == r;
            assert(now[i] == s[i]);
        }
    }
    assert forall|r: StagedFile| o.contains(r) && keeps(all, r) implies now.contains(r) by {
        let i = choose|i: int| 0 <= i < s.len() && s[i] == r;
        assert(now[i] == s[i]);
    }
}

impl Catalog {
    /// Replaces the record of the staged file at `idx` by `x`, which has its path,
    /// and refreshes the name, path and audio fields of its file row.
    fn replace_staged_meta(&mut self, idx: usize, x: FileScanCache)
        requires
            old(self).wf(),
            idx < old(self).staged@.len(),
            x.file_path@ == old(self).staged@[idx as int].meta.file_path@,
        ensures
            final(self).wf(),
            final(self).staged@.len() == old(self).staged@.len(),
            final(self).staged@[idx as int].id == old(self).staged@[idx as int].id,
            final(self).staged@[idx as int].meta == x,
            forall|i: int|
                0 <= i < old(self).staged@.len() && i != idx ==> final(self).staged@[i] == old(
                    self,
                ).staged@[i],
            final(self).books@ == old(self).books@,
            final(self).files@.len() == old(self).files@.len(),
            forall|k: int|
                0 <= k < old(self).files@.len() ==> (#[trigger] final(self).files@[k]).id == old(self).files@[k].id
                    && final(self).files@[k].data.file_id == old(self).files@[k].data.file_id
                    && final(self).files@[k].data.book_id == old(self).files@[k].data.book_id,
            final(self).next_staged_id == old(self).next_staged_id,
            final(self).next_book_id == old(self).next_book_id,
            final(self).next_file_id == old(self).next_file_id,
    {
        let ghost before = self.staged@;
        let sid = self.staged[idx].id;
        if let Some(k) = self.find_file_row(sid) {
            let ghost fb = self.files@;
            self.files[k].data.file_name = x.file_name.clone();
            self.files[k].data.file_path = x.file_path.clone();
            self.files[k].data.duration = x.duration;
            self.files[k].data.channels = x.channels;
            self.files[k].data.sample_rate = x.sample_rate;
            self.files[k].data.bitrate = x.bitrate;
            proof {
                let now = self.files@;
                assert forall|q: int| 0 <= q < now.len() && q != k implies #[trigger] now[q] == fb[q] by {}
                assert forall|a: int, b: int|
                    0 <= a < b < now.len() implies (#[trigger] now[a]).id != (#[trigger] now[b]).id
                    && now[a].data.file_id != now[b].data.file_id by {
                    assert(fb[a].id != fb[b].id);
                }
                assert forall|q: int| 0 <= q < now.len() implies 0 <= (#[trigger] now[q]).id
                    < self.next_file_id && now[q].data.file_id is Some && has_staged(
                    self.staged@,
                    now[q].data.file_id->0,
                ) && has_book(self.books@, now[q].data.book_id) by {
                    assert(now[q].id == fb[q].id);
                }
                assert forall|i: int| 0 <= i < self.books@.len() implies crate::catalog::book_used(
                    now,
                    (#[trigger] self.books@[i]).id,
                ) by {
                    assert(crate::catalog::book_used(fb, self.books@[i].id));
                    let w = choose|w: int| 0 <= w < fb.len() && (#[trigger] fb[w]).data.book_id == self.books@[i].id;
                    assert(now[w].data.book_id == fb[w].data.book_id);
                }
            }
        }
        self.staged[idx].meta = x;
        proof {
            let now = self.staged@;
            assert forall|a: int, b: int|
                0 <= a < b < now.len() implies (#[trigger] now[a]).id != (#[trigger] now[b]).id
                && now[a].meta.file_path@ != now[b].meta.file_path@ by {
                assert(before[a].id != before[b].id);
                assert(before[a].meta.file_path@ != before[b].meta.file_path@);
            }
            assert forall|i: int| 0 <= i < now.len() implies 0 <= (#[trigger] now[i]).id
                < self.next_staged_id by {
                assert(now[i].id == before[i].id);
            }
            assert forall|k: int| 0 <= k < self.files@.len() implies has_staged(
                now,
                (#[trigger] self.files@[k]).data.file_id->0,
            ) && has_book(self.books@, self.files@[k].data.book_id) by {
                let i = choose|i: int|
                    0 <= i < before.len() && (#[trigger] before[i]).id == self.files@[k].data.file_id->0;
                assert(now[i].id == before[i].id);
            }
        }
    }

    /// Adds a staged file for `x`, whose path is not staged yet.
    fn push_staged(&mut self, x: FileScanCache)
        requires
            old(self).wf(),
            !has_path(old(self).staged@, x.file_path@),
            old(self).next_staged_id < i64::MAX,
        ensures
            final(self).wf(),
            final(self).staged@ == old(self).staged@.push(
                StagedFile { id: old(self).next_staged_id, meta: x },
            ),
            final(self).books@ == old(self).books@,
            final(self).files@ == old(self).files@,
            final(self).next_staged_id == old(self).next_staged_id + 1,
            final(self).next_book_id == old(self).next_book_id,
            final(self).next_file_id == old(self).next_file_id,
    {
        let ghost before = self.staged@;
        let row = StagedFile { id: self.next_staged_id, meta: x };
        self.staged.push(row);
        self.next_staged_id = self.next_staged_id + 1;
        proof {
            let now = self.staged@;
            assert(now[before.len() as int] == row);
            assert forall|a: int, b: int|
                0 <= a < b < now.len() implies (#[trigger] now[a]).id != (#[trigger] now[b]).id
                && now[a].meta.file_path@ != now[b].meta.file_path@ by {
                assert(now[a] == before[a]);
                if b < before.len() {
                    assert(now[b] == before[b]);
                }
            }
            assert forall|i: int| 0 <= i < now.len() implies 0 <= (#[trigger] now[i]).id
                < self.next_staged_id by {
                if i < before.len() {
                    assert(now[i] == before[i]);
                }
            }
            assert forall|k: int| 0 <= k < self.files@.len() implies has_staged(
                now,
                (#[trigger] self.files@[k]).data.file_id->0,
            ) by {
                let i = choose|i: int|
                    0 <= i < before.len() && (#[trigger] before[i]).id == self.files@[k].data.file_id->0;
                assert(now[i] == before[i]);
            }
        }
    }
}

impl Catalog {
    /// One reconciliation pass over the audio files `found` on disk, each with its
    /// path, size and probed metadata.
    ///
    /// Staged files whose path was not found are deleted, with their file rows and
    /// the books this leaves empty. A found file whose path is staged with the same
    /// size is left alone; any other is stored, keeping a `UserResolved` or
    /// `Ignored` status and otherwise becoming `AutoResolved`. The catalog is then
    /// rebuilt. Returns the number of files stored.
    ///
    /// A pass leaves the store `synced` with `found`, and a pass over a store
    /// already `synced` with the same files changes nothing: scanning an unchanged
    /// tree twice writes nothing the second time.
    #[verifier::spinoff_prover]
    #[verifier::rlimit(50)]
    pub fn scan(&mut self, found: Vec<FileScanCache>) -> (processed: u64)
        requires
            old(self).wf(),
            distinct_paths(found@),
            old(self).room((old(self).staged@.len() + found@.len()) as int),
        ensures
            final(self).synced(found@),
            forall|p: Seq<char>| has_path(final(self).staged@, p) <==> found_path(found@, p),
            forall|r: StagedFile|
                old(self).staged@.contains(r) && keeps(found@, r) ==> final(self).staged@.contains(r),
            forall|j: int|
                0 <= j < found@.len() && !unchanged(old(self).staged@, #[trigger] found@[j])
                    ==> exists|i: int|
                    0 <= i < final(self).staged@.len() && (
                    #[trigger] final(self).staged@[i]).meta@ == stored(old(self).staged@, found@[j]),
            processed == n_changed(old(self).staged@, found@),
            fresh_ids(final(self).staged@, old(self).staged@, old(self).next_staged_id as int),
            kept_ids(final(self).staged@, old(self).staged@, found@),
            old(self).synced(found@) ==> final(self).staged@ == old(self).staged@ && final(self).books@
                == old(self).books@ && final(self).files@ == old(self).files@
                && final(self).next_staged_id == old(self).next_staged_id && final(self).next_book_id
                == old(self).next_book_id && final(self).next_file_id == old(self).next_file_id,
    {
        let ghost o = self.staged@;
        let ghost all = found@;
        self.prune_stale(&found);
        let mut rest = found;
        let mut processed: u64 = 0;
        let n = rest.len();
        let mut j: usize = 0;
        while j < n
            invariant
                n == all.len(),
                j <= n,
                rest@ == all.subrange(j as int, n as int),
                distinct_paths(all),
                unique_paths(o),
                o == old(self).staged@,
                self.wf(),
                self.next_book_id == old(self).next_book_id,
                self.next_file_id == old(self).next_file_id,
                self.next_staged_id <= old(self).next_staged_id + j,
                self.staged@.len() <= o.len() + j,
                old(self).room((o.len() + n) as int),
                processed <= j,
                processed == n_changed(o, all.subrange(0, j as int)),
                scan_inv(self.staged@, o, all, j as int),
                fresh_ids(self.staged@, o, old(self).next_staged_id as int),
                kept_ids(self.staged@, o, all),
                old(self).next_staged_id <= self.next_staged_id,
                old(self).synced(all) ==> self.staged@ == o && self.books@ == old(self).books@
                    && self.files@ == old(self).files@ && self.next_staged_id == old(self).next_staged_id,
            decreases n - j,
        {
            let mut x = rest.remove(0);
            let ghost before = self.staged@;
            proof {
                assert(x == all[j as int]);
                assert(rest@ =~= all.subrange(j + 1, n as int));
                lemma_n_changed_step(o, all, j as int);
                if old(self).synced(all) {
                    assert(unchanged(o, all[j as int]));
                }
                assert forall|q: int| 0 <= q < j implies (#[trigger] all[q]).file_path@ != x.file_path@ by {}
            }
            match self.find_path(&x.file_path) {
                Some(idx) => {
                    let ghost r = before[idx as int];
                    proof {
                        if done_path(all, j as int, r.meta.file_path@) {
                            let q = choose|q: int|
                                0 <= q < j && (#[trigger] all[q]).file_path@ == r.meta.file_path@;
                        }
                        reveal(scan_inv);
                        assert(o.contains(r));
                    }
                    let ghost m = choose|m: int| 0 <= m < o.len() && o[m] == r;
                    proof {
                        assert forall|i: int|
                            0 <= i < o.len() && (#[trigger] o[i]).meta.file_path@ == x.file_path@ implies i
                            == m by {
                            lemma_unique_row(o, m, i);
                        }
                        if old(self).synced(all) {
                            let w = choose|w: int|
                                0 <= w < o.len() && (#[trigger] o[w]).meta.file_path@ == x.file_path@
                                    && o[w].meta.file_size == x.file_size;
                            assert(w == m);
                        }
                    }
                    if self.staged[idx].meta.file_size == x.file_size {
                        proof {
                            assert(unchanged(o, x)) by {
                                assert(o[m] == r);
                            }
                            lemma_scan_skip(before, o, all, j as int, idx as int);
                        }
                    } else {
                        let pinned = self.staged[idx].meta.resolve_status.is_pinned();
                        let st = if pinned {
                            self.staged[idx].meta.resolve_status
                        } else {
                            ResolvedStatus::AutoResolved
                        };
                        proof {
                            assert(!unchanged(o, x));
                            assert(st == upsert_status(o, x));
                        }
                        let ghost x0 = x;
                        x.resolve_status = st;
                        proof {
                            assert(x@ == stored(o, x0));
                        }
                        self.replace_staged_meta(idx, x);
                        processed = processed + 1;
                        proof {
                            assert forall|q: int| 0 <= q < before.len() implies (#[trigger] self.staged@[q]).id
                                == before[q].id && self.staged@[q].meta.file_path@ == before[q].meta.file_path@ by {
                                if q != idx {
                                    assert(self.staged@[q] == before[q]);
                                }
                            }
                            lemma_ids_same_shape(before, self.staged@, o, all, old(self).next_staged_id as int);
                            lemma_scan_update(before, self.staged@, o, all, j as int, idx as int);
                        }
                    }
                },
                None => {
                    proof {
                        reveal(scan_inv);
                        assert forall|i: int|
                            0 <= i < o.len() && (#[trigger] o[i]).meta.file_path@ == x.file_path@ implies false by {
                            assert(found_path(all, o[i].meta.file_path@)) by {
                                assert(all[j as int].file_path@ == o[i].meta.file_path@);
                            }
                            if done_path(all, j as int, o[i].meta.file_path@) {
                                let q = choose|q: int|
                                    0 <= q < j && (#[trigger] all[q]).file_path@ == o[i].meta.file_path@;
                            }
                            assert(o.contains(o[i]));
                            assert(before.contains(o[i]));
                        }
                        assert(!unchanged(o, x));
                        assert(upsert_status(o, x) == ResolvedStatus::AutoResolved);
                    }
                    let ghost x0 = x;
                    x.resolve_status = ResolvedStatus::AutoResolved;
                    proof {
                        assert(x@ == stored(o, x0));
                    }
                    let ghost row = StagedFile { id: self.next_staged_id, meta: x };
                    self.push_staged(x);
                    processed = processed + 1;
                    proof {
                        lemma_ids_push(before, row, o, all, old(self).next_staged_id as int);
                        lemma_scan_push(before, row, o, all, j as int);
                    }
                },
            }
            j = j + 1;
        }
        proof {
            assert(all.subrange(0, n as int) =~= all);
            reveal(scan_inv);
            assert(scan_inv(self.staged@, o, all, n as int));
            assert(forall|q: int| 0 <= q < n ==> unchanged(self.staged@, #[trigger] all[q]));
        }
        self.build_catalog();
        proof {
            assert forall|p: Seq<char>| has_path(self.staged@, p) <==> found_path(all, p) by {
                if found_path(all, p) {
                    let q = choose|q: int| 0 <= q < all.len() && (#[trigger] all[q]).file_path@ == p;
                    assert(unchanged(self.staged@, all[q]));
                }
                if has_path(self.staged@, p) {
                    let i = choose|i: int|
                        0 <= i < self.staged@.len() && (#[trigger] self.staged@[i]).meta.file_path@ == p;
                }
            }
        }
        processed
    }
}

impl Catalog {
    /// Deletes the staged files whose path no record of `found` has.
    #[verifier::spinoff_prover]
    fn prune_stale(&mut self, found: &Vec<FileScanCache>)
        requires
            old(self).wf(),
        ensures
            final(self).wf(),
            scan_inv(final(self).staged@, old(self).staged@, found@, 0),
            fresh_ids(final(self).staged@, old(self).staged@, old(self).next_staged_id as int),
            kept_ids(final(self).staged@, old(self).staged@, found@),
            final(self).staged@.len() <= old(self).staged@.len(),
            final(self).next_staged_id == old(self).next_staged_id,
            final(self).next_book_id == old(self).next_book_id,
            final(self).next_file_id == old(self).next_file_id,
            old(self).synced(found@) ==> final(self).staged@ == old(self).staged@ && final(self).books@
                == old(self).books@ && final(self).files@ == old(self).files@,
    {
        let ghost o = self.staged@;
        let ghost all = found@;
        let stale = self.stale_ids(found);
        if stale.len() > 0 {
            self.delete_staged(&stale);
        }
        proof {
            assert forall|i: int| 0 <= i < self.staged@.len() implies o.contains(
                #[trigger] self.staged@[i],
            ) && found_path(all, self.staged@[i].meta.file_path@) by {
                let r = self.staged@[i];
                assert(self.staged@.contains(r));
                if stale@.len() > 0 {
                    let m = choose|m: int| 0 <= m < o.len() && o[m] == r;
                    if !found_path(all, r.meta.file_path@) {
                        assert(stale@.contains(o[m].id));
                    }
                } else {
                    if !found_path(all, r.meta.file_path@) {
                        assert(stale@.contains(o[i].id));
                    }
                }
            }
            assert forall|r: StagedFile|
                o.contains(r) && found_path(all, r.meta.file_path@) implies self.staged@.contains(r) by {
                if stale@.len() > 0 && stale@.contains(r.id) {
                    let m = choose|m: int|
                        0 <= m < o.len() && (#[trigger] o[m]).id == r.id && !found_path(
                            all,
                            o[m].meta.file_path@,
                        );
                    let m2 = choose|m2: int| 0 <= m2 < o.len() && o[m2] == r;
                    if m < m2 {
                        assert(o[m].id != o[m2].id);
                    } else if m > m2 {
                        assert(o[m2].id != o[m].id);
                    }
                }
            }
            assert forall|r: StagedFile| o.contains(r) && keeps(all, r) implies found_path(
                all,
                r.meta.file_path@,
            ) by {
                let q = choose|q: int|
                    0 <= q < all.len() && (#[trigger] all[q]).file_path@ == r.meta.file_path@
                        && all[q].file_size == r.meta.file_size;
            }
            lemma_ids_after_prune(self.staged@, o, all, old(self).next_staged_id as int);
            reveal(scan_inv);
            assert(scan_inv(self.staged@, o, all, 0));
            if old(self).synced(all) {
                assert(stale@.len() == 0) by {
                    if stale@.len() > 0 {
                        assert(stale@.contains(stale@[0]));
                    }
                }
            }
        }
    }
}

} // verus!
