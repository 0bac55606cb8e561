use rustybookshelf::clean::clean_metadata;
use rustybookshelf::dramatized::{is_dramatized, is_dramatized_lower};
use rustybookshelf::order::capture_disc_order;
use rustybookshelf::status::ResolvedStatus;

fn s(x: &str) -> String {
    x.to_string()
}

#[test]
fn clean_strips_brackets_and_captures_annotations() {
    let (c, notes) = clean_metadata(&s("Book 1 - The Final Empire (Unabridged)"));
    assert_eq!(c, "Book 1 - The Final Empire");
    assert_eq!(notes, vec![s("Unabridged")]);
}

#[test]
fn clean_all_bracket_kinds() {
    let (c, notes) = clean_metadata(&s("Dune [Dramatized] { Special Edition } (Audible)"));
    assert_eq!(c, "Dune");
    assert_eq!(notes, vec![s("Dramatized"), s("Special Edition"), s("Audible")]);
}

#[test]
fn clean_trailing_separators_repeatedly() {
    assert_eq!(clean_metadata(&s("Mistborn - -")).0, "Mistborn");
    assert_eq!(clean_metadata(&s("Mistborn ::")).0, "Mistborn");
    assert_eq!(clean_metadata(&s("Mistborn \u{2014}")).0, "Mistborn");
    assert_eq!(clean_metadata(&s("Mistborn by")).0, "Mistborn");
    assert_eq!(clean_metadata(&s("Abby")).0, "Abby");
}

#[test]
fn clean_collapses_whitespace() {
    assert_eq!(clean_metadata(&s("  The   Way \t\t of   Kings  ")).0, "The Way of Kings");
    assert_eq!(clean_metadata(&s("")).0, "");
}

#[test]
fn clean_is_idempotent_on_examples() {
    for x in ["A (b) c - -", "((x)) y", "  [a] by ", "Title :: - by", "(open", "x ) (y"] {
        let once = clean_metadata(&s(x)).0;
        let twice = clean_metadata(&once).0;
        assert_eq!(once, twice, "input {:?}", x);
    }
}

#[test]
fn clean_unmatched_opener_stays() {
    assert_eq!(clean_metadata(&s("Part (one")).0, "Part (one");
    assert_eq!(clean_metadata(&s("a ((x)) b")).0, "a ) b");
}

#[test]
fn disc_order_tokens() {
    assert_eq!(capture_disc_order("Disc 2"), Some(2));
    assert_eq!(capture_disc_order("Vol3"), Some(3));
    assert_eq!(capture_disc_order("part12 of x"), Some(12));
    assert_eq!(capture_disc_order("Book1"), None);
    assert_eq!(capture_disc_order("no number"), None);
    assert_eq!(capture_disc_order("1st then 7"), Some(7));
    assert_eq!(capture_disc_order("99999999999 and 5"), Some(5));
}

#[test]
fn dramatized_detection() {
    assert!(is_dramatized(&s("A Dramatized Production")));
    assert!(is_dramatized(&s("Dramatised")));
    assert!(is_dramatized(&s("GraphicAudio")) == false);
    assert!(is_dramatized(&s("[Graphic Audio]")));
    assert!(is_dramatized(&s("Grafic Audi")));
    assert!(is_dramatized(&s("GRAPHIC AUDIO")));
    assert!(is_dramatized(&s("DRAMATIZED")));
    assert!(!is_dramatized(&s("Brandon Sanderson")));
}

#[test]
fn status_numbering() {
    assert_eq!(ResolvedStatus::Ignored.value(), 3);
    assert_eq!(ResolvedStatus::from_value(2), Some(ResolvedStatus::UserResolved));
    assert_eq!(ResolvedStatus::from_value(4), None);
    for v in 0..4 {
        assert_eq!(ResolvedStatus::from_value(v).unwrap().value(), v);
    }
}

#[test]
fn dramatized_on_lowered_text() {
    assert!(is_dramatized_lower("graphic audio presents"));
    assert!(!is_dramatized_lower("GRAPHIC AUDIO"));
    assert!(is_dramatized_lower("a dramatised reading"));
}
