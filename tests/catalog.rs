use rustybookshelf::catalog::{Catalog, CreateFileMetadata};
use rustybookshelf::store::group_infos;
use rustybookshelf::changes::{ChangeDto, ChangeError, ChangeType};
use rustybookshelf::layout::fill_from_layout;
use rustybookshelf::meta::meta_cleanup;
use rustybookshelf::model::FileScanCache;
use rustybookshelf::status::ResolvedStatus;

fn s(x: &str) -> String {
    x.to_string()
}

fn record(path: &str, size: i64, author: Option<&str>, series: Option<&str>) -> FileScanCache {
    let (parent, name) = path.rsplit_once('/').unwrap();
    let mut r = FileScanCache::new(s(path), s(name), s(parent));
    r.file_size = size;
    r.author = author.map(s);
    r.series = series.map(s);
    r.duration = Some(1000);
    meta_cleanup(&mut r);
    r
}

fn change(kind: ChangeType, ids: Vec<i64>) -> ChangeDto {
    ChangeDto {
        change_type: kind,
        file_ids: ids,
        current_author: None,
        current_series: None,
        current_filetitle: None,
        new_author: None,
        new_series: None,
        new_filetitle: None,
        new_book_id: None,
        current_book_ids: None,
    }
}

fn book_of(c: &Catalog, staged_id: i64) -> Option<i64> {
    c.files.iter().find(|f| f.data.file_id == Some(staged_id)).map(|f| f.data.book_id)
}

fn snapshot(c: &Catalog) -> Vec<String> {
    let mut v = Vec::new();
    for r in &c.staged {
        v.push(format!("S{} {:?}", r.id, r.meta));
    }
    for b in &c.books {
        v.push(format!("B{} {} {:?} {}", b.id, b.author, b.series, b.title));
    }
    for f in &c.files {
        v.push(format!("F{} {} {:?} {}", f.id, f.data.book_id, f.data.file_id, f.data.file_name));
    }
    v.push(format!("{} {} {}", c.next_staged_id, c.next_book_id, c.next_file_id));
    v
}

fn library() -> Vec<FileScanCache> {
    vec![
        record("/lib/A/S1/t1.mp3", 10, Some("Author A"), Some("Saga (Unabridged)")),
        record("/lib/A/S1/t2.mp3", 11, Some("Author A"), Some("Saga")),
        record("/lib/B/S2/t1.m4b", 12, Some("Author B"), Some("Other")),
        record("/lib/x/loose.mp3", 13, None, None),
    ]
}

#[test]
fn layout_scan_builds_book() {
    let mut r = FileScanCache::new(
        s("root/Brandon Sanderson/Mistborn/Book 1 - The Final Empire (Unabridged)/final_empire.m4b"),
        s("final_empire.m4b"),
        s("root/Brandon Sanderson/Mistborn/Book 1 - The Final Empire (Unabridged)"),
    );
    r.file_size = 100;
    r.author = Some(s("Tag Artist"));
    let dirs = vec![
        s("Brandon Sanderson"),
        s("Mistborn"),
        s("Book 1 - The Final Empire (Unabridged)"),
    ];
    fill_from_layout(&mut r, &dirs, false);
    meta_cleanup(&mut r);
    let mut c = Catalog::new();
    let n = c.scan(vec![r]);
    assert_eq!(n, 1);
    let row = &c.staged[0].meta;
    assert_eq!(row.author.as_deref(), Some("Brandon Sanderson"));
    assert!(row.extracts.as_deref().unwrap().contains("Unabridged"));
    assert_eq!(row.clean_series.as_deref(), Some("Mistborn"));
    assert_eq!(row.clean_title.as_deref(), Some("Book 1 - The Final Empire"));
    assert_eq!(row.resolve_status, ResolvedStatus::AutoResolved);
    assert_eq!(c.books.len(), 1);
    assert_eq!(c.books[0].author, "Brandon Sanderson");
    assert_eq!(c.books[0].series.as_deref(), Some("Mistborn"));
    assert_eq!(c.files.len(), 1);
    assert_eq!(c.files[0].data.book_id, c.books[0].id);
}

#[test]
fn corrupt_file_still_staged() {
    let mut r = FileScanCache::new(s("/lib/A/S/bad.mp3"), s("bad.mp3"), s("/lib/A/S"));
    r.file_size = 5;
    let mut c = Catalog::new();
    assert_eq!(c.scan(vec![r]), 1);
    assert_eq!(c.staged.len(), 1);
    assert_eq!(c.staged[0].meta.duration, None);
    assert_eq!(c.staged[0].meta.file_name, "bad.mp3");
    assert_eq!(c.staged[0].meta.file_size, 5);
}

#[test]
fn file_move_creates_one_book() {
    let mut c = Catalog::new();
    let mut found = Vec::new();
    for i in 0..9 {
        found.push(record(&format!("/lib/A/S/t{}.mp3", i), 10 + i, Some("A"), Some("S")));
    }
    c.scan(found);
    assert_eq!(c.books.len(), 1);
    let before_books = c.next_book_id;
    let mut ch = change(ChangeType::FileMove, vec![7, 8]);
    ch.new_author = Some(s("X"));
    ch.new_series = Some(s("Y"));
    ch.new_book_id = Some(-1);
    assert_eq!(c.apply_change(&ch), Ok(()));
    assert_eq!(c.books.len(), 2);
    assert_eq!(c.next_book_id, before_books + 1);
    let new_book = c.books.iter().find(|b| b.author == "X").unwrap();
    assert_eq!(new_book.series.as_deref(), Some("Y"));
    assert_eq!(book_of(&c, 7), Some(new_book.id));
    assert_eq!(book_of(&c, 8), Some(new_book.id));
    assert_eq!(c.files.iter().filter(|f| f.data.book_id == new_book.id).count(), 2);
    let moved = c.staged.iter().find(|r| r.id == 7).unwrap();
    assert_eq!(moved.meta.resolve_status, ResolvedStatus::UserResolved);
    assert_eq!(moved.meta.author.as_deref(), Some("X"));
}

#[test]
fn file_move_empties_source_book() {
    let mut c = Catalog::new();
    c.scan(library());
    let src = book_of(&c, 2).unwrap();
    let mut ch = change(ChangeType::FileMove, vec![2]);
    ch.new_author = Some(s("Author C"));
    ch.new_series = Some(s("New"));
    ch.new_book_id = Some(-5);
    assert_eq!(c.apply_change(&ch), Ok(()));
    assert!(c.books.iter().all(|b| b.id != src));
    assert_eq!(c.books.len(), 2);
}

#[test]
fn file_move_rejections() {
    let mut c = Catalog::new();
    c.scan(library());
    let snap = snapshot(&c);
    let mut ch = change(ChangeType::FileMove, vec![0]);
    ch.new_author = Some(s("X"));
    ch.new_book_id = Some(-1);
    assert_eq!(c.apply_change(&ch), Err(ChangeError::MissingFields));
    ch.new_series = Some(s("Y"));
    ch.file_ids = vec![0, 99];
    assert_eq!(c.apply_change(&ch), Err(ChangeError::UnknownFile));
    ch.file_ids = vec![0];
    ch.new_book_id = Some(1234);
    assert_eq!(c.apply_change(&ch), Err(ChangeError::UnknownBook));
    assert_eq!(snapshot(&c), snap);
}

#[test]
fn rescan_unchanged_tree_changes_nothing() {
    let mut c = Catalog::new();
    assert_eq!(c.scan(library()), 4);
    let snap = snapshot(&c);
    assert_eq!(c.scan(library()), 0);
    assert_eq!(snapshot(&c), snap);
}

#[test]
fn rescan_changed_size_keeps_pinned_status() {
    let mut c = Catalog::new();
    c.scan(library());
    c.set_resolve_status(&vec![0], ResolvedStatus::Ignored);
    c.set_resolve_status(&vec![0], ResolvedStatus::Ignored);
    let mut again = library();
    again[0].file_size = 99;
    again[1].file_size = 98;
    assert_eq!(c.scan(again), 2);
    let r0 = c.staged.iter().find(|r| r.id == 0).unwrap();
    assert_eq!(r0.meta.resolve_status, ResolvedStatus::Ignored);
    assert_eq!(r0.meta.file_size, 99);
    let r1 = c.staged.iter().find(|r| r.id == 1).unwrap();
    assert_eq!(r1.meta.resolve_status, ResolvedStatus::AutoResolved);
}

#[test]
fn deleted_file_leaves_store_and_catalog() {
    let mut c = Catalog::new();
    c.scan(library());
    let b = book_of(&c, 2).unwrap();
    let mut rest = library();
    rest.remove(2);
    assert_eq!(c.scan(rest), 0);
    assert!(c.staged.iter().all(|r| r.meta.file_path != "/lib/B/S2/t1.m4b"));
    assert!(c.files.iter().all(|f| f.data.file_id != Some(2)));
    assert!(c.books.iter().all(|x| x.id != b));
    assert_eq!(c.known_paths().len(), 3);
}

#[test]
fn same_key_same_book() {
    let mut c = Catalog::new();
    c.scan(library());
    assert_eq!(c.books.len(), 2);
    assert_eq!(book_of(&c, 0), book_of(&c, 1));
    assert_ne!(book_of(&c, 0), book_of(&c, 2));
    assert_eq!(book_of(&c, 3), None);
}

#[test]
fn merge_title_moves_files_and_removes_source() {
    let mut c = Catalog::new();
    c.scan(library());
    let a = book_of(&c, 2).unwrap();
    let b = book_of(&c, 0).unwrap();
    let mut ch = change(ChangeType::MergeTitle, vec![]);
    ch.new_book_id = Some(b);
    ch.current_book_ids = Some(vec![a]);
    assert_eq!(c.apply_change(&ch), Ok(()));
    assert!(c.books.iter().all(|x| x.id != a));
    assert_eq!(book_of(&c, 2), Some(b));
    let mut missing = change(ChangeType::MergeTitle, vec![]);
    missing.new_book_id = Some(b);
    assert_eq!(c.apply_change(&missing), Err(ChangeError::MissingFields));
    missing.current_book_ids = Some(vec![]);
    missing.new_book_id = Some(777);
    assert_eq!(c.apply_change(&missing), Err(ChangeError::UnknownBook));
}

#[test]
fn rename_and_move_title() {
    let mut c = Catalog::new();
    c.scan(library());
    let mut ch = change(ChangeType::Rename, vec![0]);
    assert_eq!(c.apply_change(&ch), Err(ChangeError::MissingFields));
    ch.new_filetitle = Some(s("Chapter One"));
    assert_eq!(c.apply_change(&ch), Ok(()));
    assert_eq!(c.staged[0].meta.file_name, "Chapter One");
    assert_eq!(c.staged[0].meta.clean_title.as_deref(), Some("Chapter One"));
    assert_eq!(c.files.iter().find(|f| f.data.file_id == Some(0)).unwrap().data.file_name, "Chapter One");
    let mut mv = change(ChangeType::MoveTitle, vec![2]);
    assert_eq!(c.apply_change(&mv), Err(ChangeError::MissingFields));
    mv.new_author = Some(s("Renamed"));
    assert_eq!(c.apply_change(&mv), Ok(()));
    let b = book_of(&c, 2).unwrap();
    assert_eq!(c.books.iter().find(|x| x.id == b).unwrap().author, "Renamed");
    assert_eq!(c.staged[2].meta.resolve_status, ResolvedStatus::UserResolved);
    let res = c.apply_changes(&vec![change(ChangeType::Rename, vec![]), mv.clone()]);
    assert_eq!(res.len(), 2);
    assert_eq!(res[0], Err(ChangeError::MissingFields));
    assert_eq!(res[1], Ok(()));
}

#[test]
fn browsing_view_lists_files_with_books() {
    let mut c = Catalog::new();
    c.scan(library());
    let infos = c.file_infos();
    assert_eq!(infos.len(), 3);
    let first = infos.iter().find(|i| i.id == 0).unwrap();
    assert_eq!(first.author, "Author A");
    assert_eq!(first.series, "Saga");
    assert_eq!(first.title, "Saga");
    assert_eq!(first.file_name, "t1.mp3");
    assert_eq!(first.path_parent, "/lib/A/S1");
    let paths = c.known_paths();
    assert_eq!(paths.len(), 4);
    assert_eq!(paths[3].id, 3);
    assert_eq!(paths[3].file_path, "/lib/x/loose.mp3");
}

#[test]
fn rescan_refreshes_file_row() {
    let mut c = Catalog::new();
    c.scan(library());
    let mut again = library();
    again[1].file_size = 50;
    again[1].duration = Some(4242);
    assert_eq!(c.scan(again), 1);
    let row = c.files.iter().find(|f| f.data.file_id == Some(1)).unwrap();
    assert_eq!(row.data.duration, Some(4242));
    assert_eq!(book_of(&c, 1), book_of(&c, 0));
}

#[test]
fn new_file_never_reuses_deleted_id() {
    let mut c = Catalog::new();
    c.scan(library());
    let mut next = library();
    next.remove(2);
    next.push(record("/lib/C/S3/n.mp3", 20, Some("Author C"), Some("Third")));
    assert_eq!(c.scan(next), 1);
    let fresh = c.staged.iter().find(|r| r.meta.file_path == "/lib/C/S3/n.mp3").unwrap();
    assert_eq!(fresh.id, 4);
    assert!(c.staged.iter().all(|r| r.id != 2));
    let kept = c.staged.iter().find(|r| r.meta.file_path == "/lib/A/S1/t1.mp3").unwrap();
    assert_eq!(kept.id, 0);
}

#[test]
fn merge_keeps_other_rows_and_retargets_staged() {
    let mut c = Catalog::new();
    let mut found = library();
    found.push(record("/lib/D/S4/t.mp3", 30, Some("Author D"), Some("Fourth")));
    c.scan(found);
    let a = book_of(&c, 2).unwrap();
    let b = book_of(&c, 0).unwrap();
    let other = book_of(&c, 4).unwrap();
    let mut ch = change(ChangeType::MergeTitle, vec![]);
    ch.new_book_id = Some(b);
    ch.current_book_ids = Some(vec![a]);
    assert_eq!(c.apply_change(&ch), Ok(()));
    assert_eq!(book_of(&c, 4), Some(other));
    let moved = c.staged.iter().find(|r| r.id == 2).unwrap();
    assert_eq!(moved.meta.author.as_deref(), Some("Author A"));
    assert_eq!(moved.meta.clean_series.as_deref(), Some("Saga"));
    assert_eq!(moved.meta.resolve_status, ResolvedStatus::UserResolved);
    let untouched = c.staged.iter().find(|r| r.id == 4).unwrap();
    assert_eq!(untouched.meta.resolve_status, ResolvedStatus::AutoResolved);
}

#[test]
fn batch_outcomes_and_rebuild() {
    let mut c = Catalog::new();
    c.scan(library());
    let mut bad = change(ChangeType::FileMove, vec![0]);
    bad.new_author = Some(s("X"));
    let mut good = change(ChangeType::FileMove, vec![0, 1]);
    good.new_author = Some(s("X"));
    good.new_series = Some(s("Y"));
    good.new_book_id = Some(-1);
    let res = c.apply_changes(&vec![bad, good]);
    assert_eq!(res, vec![Err(ChangeError::MissingFields), Ok(())]);
    let x = c.books.iter().find(|b| b.author == "X").unwrap();
    assert_eq!(x.series.as_deref(), Some("Y"));
    assert_eq!(x.title, "Y");
    assert_eq!(book_of(&c, 0), Some(x.id));
    assert_eq!(book_of(&c, 1), Some(x.id));
    assert_eq!(c.books.iter().filter(|b| b.author == "X").count(), 1);
    assert_eq!(c.books.len(), 2);
}

#[test]
fn new_books_seeded_from_first_member() {
    let mut c = Catalog::new();
    let mut first = record("/lib/A/S1/t1.mp3", 10, Some("Author A"), Some("Saga"));
    first.cover_art = Some(s("/covers/saga.jpg"));
    let second = record("/lib/A/other/t2.mp3", 11, Some("Author A"), Some("Saga"));
    c.scan(vec![first, second]);
    assert_eq!(c.books.len(), 1);
    assert_eq!(c.books[0].title, "Saga");
    assert_eq!(c.books[0].files_location, "/lib/A/S1");
    assert_eq!(c.books[0].cover_art.as_deref(), Some("/covers/saga.jpg"));
}

#[test]
fn grouped_view_by_author_and_series() {
    let mut c = Catalog::new();
    let mut found = library();
    found.push(record("/lib/A/S9/t9.mp3", 40, Some("Author A"), Some("Second")));
    c.scan(found);
    let groups = c.get_grouped_files();
    assert_eq!(groups.len(), 2);
    let a = groups.iter().find(|g| g.author == "Author A").unwrap();
    assert_eq!(a.books.len(), 2);
    let saga = a.books.iter().find(|b| b.series == "Saga").unwrap();
    assert_eq!(saga.files.len(), 2);
    let infos = c.file_infos();
    assert_eq!(infos.len(), 4);
    let regrouped = group_infos(infos);
    assert_eq!(regrouped.len(), 2);
    let f = CreateFileMetadata::new(s("/p"), None, s("p"), None, None, None, None);
    assert_eq!(f.book_id, -99);
}

#[test]
fn unknown_labels_in_view() {
    let mut c = Catalog::new();
    c.scan(vec![record("/lib/A/S/t.mp3", 1, Some("Writer"), Some("S"))]);
    c.books[0].series = None;
    let infos = c.file_infos();
    assert_eq!(infos[0].series, "unknown");
    assert_eq!(infos[0].author, "Writer");
}

#[test]
fn delete_reports_removed_count() {
    let mut c = Catalog::new();
    c.scan(library());
    let snap = snapshot(&c);
    assert_eq!(c.delete_staged(&vec![]), 0);
    assert_eq!(snapshot(&c), snap);
    assert_eq!(c.delete_staged(&vec![2, 3, 99]), 2);
    assert_eq!(c.staged.len(), 2);
    assert!(c.files.iter().all(|f| f.data.file_id != Some(2)));
    assert_eq!(c.books.len(), 1);
}

#[test]
fn book_duration_and_ungrouped_count() {
    let mut c = Catalog::new();
    c.scan(library());
    let b = book_of(&c, 0).unwrap();
    assert_eq!(c.book_duration(b), 2000);
    assert_eq!(c.book_duration(12345), 0);
    assert_eq!(c.ungrouped_count(), 1);
}

#[test]
fn grouped_view_lists_each_file_once() {
    let mut c = Catalog::new();
    c.scan(library());
    let total: usize = c.get_grouped_files().iter().map(|a| a.books.iter().map(|b| b.files.len()).sum::<usize>()).sum();
    assert_eq!(total, c.files.len());
}

#[test]
fn move_title_rejects_key_clash() {
    let mut c = Catalog::new();
    c.scan(library());
    let snap = snapshot(&c);
    let mut mv = change(ChangeType::MoveTitle, vec![2]);
    mv.new_author = Some(s("Author A"));
    mv.new_series = Some(s("Saga"));
    assert_eq!(c.apply_change(&mv), Err(ChangeError::KeyTaken));
    assert_eq!(snapshot(&c), snap);
}

#[test]
fn file_move_to_present_key_reuses_book() {
    let mut c = Catalog::new();
    c.scan(library());
    let target = book_of(&c, 0).unwrap();
    let next = c.next_book_id;
    let mut ch = change(ChangeType::FileMove, vec![2]);
    ch.new_author = Some(s("Author A"));
    ch.new_series = Some(s("Saga"));
    ch.new_book_id = Some(-1);
    assert_eq!(c.apply_change(&ch), Ok(()));
    assert_eq!(book_of(&c, 2), Some(target));
    assert_eq!(c.next_book_id, next);
    assert_eq!(c.books.len(), 1);
}
