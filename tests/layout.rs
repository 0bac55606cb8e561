use rustybookshelf::catalog::BaseFileMetadata;
use rustybookshelf::layout::{extract_besttag, fill_from_layout, layout_collects, get_mime_type, is_audio_name, FileKind, TagKind, TagSummary};
use rustybookshelf::meta::{assign_title_if_empty, author_cleanup, series_cleanup};
use rustybookshelf::model::FileScanCache;

fn s(x: &str) -> String {
    x.to_string()
}

#[test]
fn layout_two_and_three_levels() {
    let mut r = FileScanCache::new(s("/r/A/T/f.mp3"), s("f.mp3"), s("/r/A/T"));
    fill_from_layout(&mut r, &vec![s("A"), s("T")], false);
    assert_eq!(r.author.as_deref(), Some("A"));
    assert_eq!(r.series, None);
    assert_eq!(r.title.as_deref(), Some("T"));
    let mut container = FileScanCache::new(s("/r/A/S/f.mp3"), s("f.mp3"), s("/r/A/S"));
    fill_from_layout(&mut container, &vec![s("A"), s("S")], true);
    assert_eq!(container.author, None);
    assert_eq!(container.title, None);
    let mut t = FileScanCache::new(s("/r/A/S/T/f.mp3"), s("f.mp3"), s("/r/A/S/T"));
    t.author = Some(s("Tagged"));
    fill_from_layout(&mut t, &vec![s("A"), s("S"), s("T")], false);
    assert_eq!(t.author.as_deref(), Some("A"));
    assert_eq!(t.series.as_deref(), Some("S"));
    assert_eq!(t.title.as_deref(), Some("T"));
    let mut u = FileScanCache::new(s("/r/f.mp3"), s("f.mp3"), s("/r"));
    fill_from_layout(&mut u, &vec![s("only")], false);
    assert_eq!(u.author, None);
}

#[test]
fn mime_types() {
    assert_eq!(get_mime_type(&Some(FileKind::Mpeg)).as_deref(), Some("audio/mpeg"));
    assert_eq!(get_mime_type(&Some(FileKind::Mp4)).as_deref(), Some("audio/mp4"));
    assert_eq!(get_mime_type(&Some(FileKind::WavPack)).as_deref(), Some("audio/wavpack"));
    assert_eq!(get_mime_type(&Some(FileKind::Other)), None);
    assert_eq!(get_mime_type(&None), None);
}

#[test]
fn best_tag_choice() {
    let t = |kind, has_title, has_artist| TagSummary { kind, has_title, has_artist };
    let tags = vec![
        t(TagKind::Id3v1, true, true),
        t(TagKind::Id3v2, true, false),
        t(TagKind::Ape, true, true),
    ];
    assert_eq!(extract_besttag(&tags), Some(2));
    let tags = vec![t(TagKind::Other, false, false), t(TagKind::Id3v2, false, true)];
    assert_eq!(extract_besttag(&tags), Some(0));
    assert_eq!(extract_besttag(&vec![]), None);
}

#[test]
fn series_and_author_cleanup() {
    let mut r = FileScanCache::new(s("/p/f.mp3"), s("f.mp3"), s("/p"));
    r.series = Some(s("Dune Vol 2 (Unabridged) [Dramatized]"));
    r.author = Some(s("Frank Herbert -"));
    r.extracts = Some(s("earlier"));
    series_cleanup(&mut r);
    author_cleanup(&mut r);
    assert_eq!(r.clean_series.as_deref(), Some("Dune Vol 2"));
    assert_eq!(r.disc_number, Some(2));
    assert!(r.dramatized);
    assert_eq!(r.extracts.as_deref(), Some("earlier | Unabridged,Dramatized"));
    assert_eq!(r.author.as_deref(), Some("Frank Herbert"));
    let mut e = FileScanCache::new(s("/p/g.mp3"), s("g.mp3"), s("/p"));
    e.author = Some(s("(Narrator)"));
    author_cleanup(&mut e);
    assert_eq!(e.author.as_deref(), Some("(Narrator)"));
}

#[test]
fn base_file_metadata_new() {
    let f = BaseFileMetadata::new(s("/p/f.mp3"), Some(3), s("f.mp3"), Some(10), None, Some(44100), None);
    assert_eq!(f.book_id, -99);
    assert_eq!(f.file_id, Some(3));
    assert_eq!(f.sample_rate, Some(44100));
}

#[test]
fn title_from_file_name_or_series() {
    let mut a = FileScanCache::new(s("/p/Chapter One.part.mp3"), s("Chapter One.part.mp3"), s("/p"));
    assign_title_if_empty(&mut a);
    assert_eq!(a.title.as_deref(), Some("Chapter One"));
    let mut b = FileScanCache::new(s("/p/012.mp3"), s("012.mp3"), s("/p"));
    b.series = Some(s("Saga"));
    assign_title_if_empty(&mut b);
    assert_eq!(b.title.as_deref(), Some("Saga"));
    let mut c = FileScanCache::new(s("/p/-7.mp3"), s("-7.mp3"), s("/p"));
    assign_title_if_empty(&mut c);
    assert_eq!(c.title, None);
    let mut d = FileScanCache::new(s("/p/99999999999999999999.mp3"), s("99999999999999999999.mp3"), s("/p"));
    assign_title_if_empty(&mut d);
    assert_eq!(d.title.as_deref(), Some("99999999999999999999"));
    let mut e = FileScanCache::new(s("/p/x.mp3"), s("x.mp3"), s("/p"));
    e.title = Some(s("Kept"));
    assign_title_if_empty(&mut e);
    assert_eq!(e.title.as_deref(), Some("Kept"));
}

#[test]
fn audio_extensions() {
    assert!(is_audio_name("a.mp3"));
    assert!(is_audio_name("Book.Part.M4B"));
    assert!(is_audio_name("x.FlAc"));
    assert!(is_audio_name("y.m4a"));
    assert!(!is_audio_name("cover.jpg"));
    assert!(!is_audio_name("mp3"));
    assert!(!is_audio_name("a.mp3.txt"));
}

#[test]
fn series_container_files_are_skipped() {
    assert!(!layout_collects(2, true));
    assert!(layout_collects(2, false));
    assert!(layout_collects(3, true));
    assert!(layout_collects(1, true));
}
