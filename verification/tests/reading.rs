use std::path::PathBuf;

use word_displayer::reading::{
    build, country_coord, field, fileable_books, normalize, parse_book, parse_degrees, parse_rating,
    Book, RawBook, ReadingMap,
};
use word_displayer::week::Week;

fn chars(s: &str) -> Vec<char> {
    s.chars().collect()
}

/// Millionths of a degree as degrees.
fn degrees(micro: i64) -> f32 {
    micro as f32 / 1e6
}

#[test]
fn parses_book_frontmatter() {
    let text = "---\nauthor: Albert Camus\ncountry: France\nregion: Algiers\nrating: 5\ndate: 2026-W20\n---\n随便的读后感\n";
    let r = parse_book("异乡人".into(), PathBuf::new(), text);
    assert_eq!(r.author, "Albert Camus");
    assert_eq!(r.country, "France");
    assert_eq!(r.region.as_deref(), Some("Algiers"));
    assert_eq!(r.rating, Some(5));
    assert_eq!(r.weeks, vec![Week { year: 2026, week: 20 }]);
}

#[test]
fn lat_lon_override_wins() {
    let text = "---\nauthor: X\ncountry: Nowhereland\nlat: 12.5\nlon: -3.0\n---\n";
    let r = parse_book("t".into(), PathBuf::new(), text);
    assert_eq!(r.coord.map(|(a, b)| (degrees(a), degrees(b))), Some((12.5, -3.0)));
}

fn raw(title: &str, author: &str, country: &str, rating: Option<u8>) -> RawBook {
    RawBook {
        title: title.into(),
        path: PathBuf::new(),
        author: author.into(),
        country: country.into(),
        region: None,
        rating,
        coord: None,
        weeks: vec![],
    }
}

#[test]
fn groups_books_under_authors_and_countries() {
    let raws = vec![
        raw("The Stranger", "Camus", "France", Some(5)),
        // different case, still the same author
        raw("The Plague", "camus", "france", None),
        raw("Kokoro", "Natsume Soseki", "Japan", None),
    ];
    let m = build(raws);
    assert_eq!(m.countries.len(), 2);
    assert_eq!(m.authors.len(), 2);
    assert_eq!(m.books.len(), 3);
    // two books under Camus
    let camus = m.authors.iter().find(|a| a.name == "Camus").unwrap();
    assert_eq!(camus.books.len(), 2);
}

#[test]
fn unknown_country_without_coord_is_counted_unplaced() {
    let raws = vec![raw("t", "a", "Nowhereland", None)];
    let m = build(raws);
    assert_eq!(m.unplaced, 1);
    assert_eq!(m.books.len(), 0);
}

#[test]
fn coord_table_knows_common_countries() {
    assert!(country_coord("France").is_some());
    assert!(country_coord("日本").is_some());
    assert!(country_coord("俄罗斯").is_some());
    assert!(country_coord("Mars").is_none());
}

#[test]
fn country_points() {
    assert_eq!(country_coord("  FRANCE "), Some((46_600_000, 2_400_000)));
    assert_eq!(country_coord("Brazil"), Some((-14_200_000, -51_900_000)));
    assert_eq!(country_coord("英格兰"), country_coord("uk"));
    assert_eq!(country_coord("kenya"), Some((0, 37_900_000)));
}

#[test]
fn build_files_in_first_seen_order() {
    let mut own = raw("Nowhere book", "Z", "Atlantis", None);
    own.coord = Some((1_000_000, 2_000_000));
    let mut dated = raw("B2", "b", "JAPAN", Some(3));
    dated.weeks = vec![Week { year: 2026, week: 5 }, Week { year: 2026, week: 1 }];
    let raws = vec![
        raw("A1", "a", "France", None),
        raw("lost", "q", "Mars", None),
        dated,
        own,
        raw("A2", " A ", "france ", None),
        raw("C1", "a", "Japan", None),
    ];
    let m: ReadingMap = build(raws);
    assert_eq!(m.unplaced, 1);
    let titles: Vec<&str> = m.books.iter().map(|b| b.title.as_str()).collect();
    assert_eq!(titles, vec!["A1", "B2", "Nowhere book", "A2", "C1"]);
    let countries: Vec<&str> = m.countries.iter().map(|c| c.name.as_str()).collect();
    assert_eq!(countries, vec!["France", "JAPAN", "Atlantis"]);
    assert_eq!((m.countries[2].lat, m.countries[2].lon), (1_000_000, 2_000_000));
    let authors: Vec<(&str, u32)> = m.authors.iter().map(|a| (a.name.as_str(), a.country)).collect();
    // "a" in France and "a" in Japan are two authors
    assert_eq!(authors, vec![("a", 0), ("b", 1), ("Z", 2), ("a", 1)]);
    assert_eq!(m.authors[0].books, vec![0, 3]);
    assert_eq!(m.countries[1].authors, vec![1, 3]);
    assert_eq!(m.weeks, vec![Week { year: 2026, week: 1 }, Week { year: 2026, week: 5 }]);
    assert_eq!(m.books[1].weeks, vec![0, 1]);
    assert_eq!(m.books[1].rating, Some(3));
    assert_eq!(m.books[1].last_week(), Some(1));
    assert_eq!(m.books[0].last_week(), None);
    let b: &Book = &m.books[4];
    assert_eq!(b.author, 3);
}

#[test]
fn frontmatter_fields() {
    let front = chars("title: \"Kokoro\"\nrating :4\nlatitude: 1\nlat: \nlat: 3\nauthor:\n");
    assert_eq!(field(&front, "title").as_deref(), Some("Kokoro"));
    assert_eq!(field(&front, "rating").as_deref(), Some("4"));
    // an empty value is skipped, the next line with the key counts
    assert_eq!(field(&front, "lat").as_deref(), Some("3"));
    assert_eq!(field(&front, "author"), None);
    assert_eq!(field(&front, "region"), None);
}

#[test]
fn title_falls_back_to_the_file_name() {
    let r = parse_book("file".into(), PathBuf::from("file.md"), "---\nauthor: A\n---\n");
    assert_eq!(r.title, "file");
    assert_eq!(r.path, PathBuf::from("file.md"));
    assert_eq!(r.country, "");
    assert_eq!(r.rating, None);
    let r = parse_book("file".into(), PathBuf::new(), "---\ntitle: Named\nrating: 300\nlat: 1\n---\n");
    assert_eq!(r.title, "Named");
    assert_eq!(r.rating, None);
    // only one coordinate: no point of its own
    assert_eq!(r.coord, None);
}

#[test]
fn numbers() {
    assert_eq!(parse_rating(&chars("5")), Some(5));
    assert_eq!(parse_rating(&chars("+007")), Some(7));
    assert_eq!(parse_rating(&chars("255")), Some(255));
    assert_eq!(parse_rating(&chars("256")), None);
    assert_eq!(parse_rating(&chars("-1")), None);
    assert_eq!(parse_rating(&chars("+")), None);
    assert_eq!(parse_rating(&chars("")), None);
    assert_eq!(parse_degrees(&chars("36.75")), Some(36_750_000));
    assert_eq!(parse_degrees(&chars("-3.06")), Some(-3_060_000));
    assert_eq!(parse_degrees(&chars("+.5")), Some(500_000));
    assert_eq!(parse_degrees(&chars("7.")), Some(7_000_000));
    assert_eq!(parse_degrees(&chars(".")), None);
    assert_eq!(parse_degrees(&chars("-")), None);
    assert_eq!(parse_degrees(&chars("1.2.3")), None);
    assert_eq!(parse_degrees(&chars("12a")), None);
}

#[test]
fn degrees_round_to_the_nearest_millionth() {
    assert_eq!(parse_degrees(&chars("1.23456789")), Some(1_234_568));
    assert_eq!(parse_degrees(&chars("1.2345674")), Some(1_234_567));
    assert_eq!(parse_degrees(&chars("1.2345675")), Some(1_234_568));
    assert_eq!(parse_degrees(&chars("-1.2345675")), Some(-1_234_568));
    assert_eq!(parse_degrees(&chars("9.9999995")), Some(10_000_000));
    assert_eq!(parse_degrees(&chars("0.0000004")), Some(0));
    assert_eq!(parse_degrees(&chars("0.0000005")), Some(1));
}

#[test]
fn degrees_take_an_exponent() {
    assert_eq!(parse_degrees(&chars("1e1")), Some(10_000_000));
    assert_eq!(parse_degrees(&chars("1e3")), Some(1_000_000_000));
    assert_eq!(parse_degrees(&chars("1.25e1")), Some(12_500_000));
    assert_eq!(parse_degrees(&chars(".5E+1")), Some(5_000_000));
    assert_eq!(parse_degrees(&chars("-2.5E-1")), Some(-250_000));
    assert_eq!(parse_degrees(&chars("125e-2")), Some(1_250_000));
    assert_eq!(parse_degrees(&chars("5e-7")), Some(1));
    assert_eq!(parse_degrees(&chars("4e-7")), Some(0));
    assert_eq!(parse_degrees(&chars("1e-99999999999999999999999")), Some(0));
    assert_eq!(parse_degrees(&chars("0e99999999999999999999999")), Some(0));
    // as large as the type holds, and past it
    assert_eq!(parse_degrees(&chars("9223372036854.775807")), Some(i64::MAX));
    assert_eq!(parse_degrees(&chars("-9223372036854.775807")), Some(-i64::MAX));
    assert_eq!(parse_degrees(&chars("9223372036854.7758075")), None);
    assert_eq!(parse_degrees(&chars("1e13")), None);
    assert_eq!(parse_degrees(&chars("1e99999999999999999999999")), None);
    assert_eq!(parse_degrees(&chars("123456789012345678901234567890")), None);
    // not numbers
    assert_eq!(parse_degrees(&chars("1e")), None);
    assert_eq!(parse_degrees(&chars("1e+")), None);
    assert_eq!(parse_degrees(&chars("e5")), None);
    assert_eq!(parse_degrees(&chars(".e5")), None);
    assert_eq!(parse_degrees(&chars("1e5x")), None);
    assert_eq!(parse_degrees(&chars("inf")), None);
    assert_eq!(parse_degrees(&chars("NaN")), None);
}

#[test]
fn names_are_normalised() {
    assert_eq!(normalize("  France\t"), "france");
    assert_eq!(normalize("ÉIRE "), "éire");
}

#[test]
fn empty_map() {
    let m = ReadingMap::default();
    assert!(m.countries.is_empty() && m.books.is_empty() && m.unplaced == 0);
}

#[test]
fn books_without_author_or_country_are_left_out() {
    let kept = fileable_books(vec![
        raw("A", "Camus", "France", None),
        raw("B", "", "France", None),
        raw("C", "Soseki", "", None),
        raw("D", "Soseki", "Japan", None),
    ]);
    let titles: Vec<&str> = kept.iter().map(|r| r.title.as_str()).collect();
    assert_eq!(titles, vec!["A", "D"]);
    assert!(fileable_books(Vec::new()).is_empty());
}
