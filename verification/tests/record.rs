use geosearch::document::{push_non_empty, push_optional, AddressParts, AdminHierarchy, GeoDocument};
use geosearch::float::{Float32, Float64};
use geosearch::record::{
    decode_document, encode_document, escape, escape_opt, line_of_row, none_if_empty,
    row_numerals, unescape, DocumentNumbers, DocumentNumerals,
};

fn document() -> GeoDocument {
    GeoDocument {
        id: "id\\1".to_string(),
        source: "osm".to_string(),
        layer: "venue".to_string(),
        name: " Café\tdel\nMar ".to_string(),
        label: " ".to_string(),
        country_code: "CO".to_string(),
        latitude: Float64 { bits: 4.5_f64.to_bits() },
        longitude: Float64 { bits: (-74.25_f64).to_bits() },
        admin_hierarchy: AdminHierarchy {
            country: Some("Colombia".to_string()),
            region: Some("  ".to_string()),
            county: Some("Condado".to_string()),
            locality: Some("Bogotá ".to_string()),
            neighbourhood: Some("Chapinero".to_string()),
        },
        address: AddressParts {
            house_number: Some("41".to_string()),
            street: Some("Calle 72".to_string()),
            postal_code: Some("110231".to_string()),
        },
        aliases: vec!["Mar".to_string(), "El Café".to_string()],
        popularity: Float32 { bits: 2.5_f32.to_bits() },
    }
}

fn numerals() -> DocumentNumerals {
    DocumentNumerals {
        latitude: "4.5".to_string(),
        longitude: "-74.25".to_string(),
        popularity: "2.5".to_string(),
    }
}

fn numbers() -> DocumentNumbers {
    DocumentNumbers {
        latitude: Ok(document().latitude),
        longitude: Ok(document().longitude),
        popularity: Ok(document().popularity),
    }
}

const ROW: &str = "id\\\\1\tosm\tvenue\t Café\\tdel\\nMar \t \tCO\t4.5\t-74.25\t2.5\tColombia\t  \tCondado\tBogotá \tChapinero\t41\tCalle 72\t110231\tMar|El Café\n";

#[test]
fn escaping_hides_separators() {
    assert_eq!(escape("a\tb\nc\\d"), "a\\tb\\nc\\\\d");
    assert_eq!(escape("plain"), "plain");
    assert_eq!(escape_opt(&Some("\t".to_string())), "\\t");
    assert_eq!(escape_opt(&None), "");
}

#[test]
fn unescaping_gives_the_text_back() {
    for text in ["", "\\", "\\\\", "\t\n\\t\\n", "a\\b", "é\\"] {
        assert_eq!(unescape(&escape(text)), text);
    }
    assert_eq!(unescape("a\\qb"), "a\\qb");
    assert_eq!(unescape("a\\"), "a\\");
    assert_eq!(none_if_empty(String::new()), None);
    assert_eq!(none_if_empty("a".to_string()), Some("a".to_string()));
}

#[test]
fn a_document_is_one_row() {
    assert_eq!(encode_document(&document(), &numerals()), ROW);
    let line = line_of_row(ROW);
    assert_eq!(line, ROW.trim_end_matches('\n'));
    assert_eq!(line_of_row("a\n\n"), "a");
    let found = row_numerals(&line).unwrap();
    assert_eq!(found.latitude, "4.5");
    assert_eq!(found.longitude, "-74.25");
    assert_eq!(found.popularity, "2.5");
}

#[test]
fn a_row_gives_its_document_back() {
    let line = line_of_row(ROW);
    assert_eq!(decode_document(&line, &numbers()), Ok(document()));
}

#[test]
fn a_row_does_not_tell_empty_texts_from_none() {
    let mut document = document();
    document.address.street = Some(String::new());
    document.aliases = vec!["a|b".to_string(), String::new()];
    let line = line_of_row(&encode_document(&document, &numerals()));
    let read = decode_document(&line, &numbers()).unwrap();
    assert_eq!(read.address.street, None);
    assert_eq!(read.aliases, vec!["a".to_string(), "b".to_string()]);
}

#[test]
fn rows_with_faults_say_which() {
    let message = |line: &str, numbers: &DocumentNumbers| {
        decode_document(line, numbers).unwrap_err().to_string()
    };
    assert_eq!(message("", &numbers()), "invalid document row: expected 18 fields, got 1");
    assert!(row_numerals("a\tb").is_none());
    let line = line_of_row(ROW);
    let mut faulty = numbers();
    faulty.popularity = Err("third".to_string());
    assert_eq!(message(&line, &faulty), "third");
    faulty.longitude = Err("second".to_string());
    assert_eq!(message(&line, &faulty), "second");
    faulty.latitude = Err("first".to_string());
    assert_eq!(message(&line, &faulty), "first");
}

#[test]
fn searchable_text_joins_what_is_not_blank() {
    assert_eq!(
        document().searchable_text(),
        "Café\tdel\nMar Mar El Café 41 Calle 72 Chapinero Bogotá Condado Colombia"
    );
}

#[test]
fn blank_labels_are_filled_once() {
    let mut document = document();
    document.ensure_label();
    assert_eq!(document.label, "Café\tdel\nMar, Bogotá, Colombia");
    let labelled = document.clone();
    document.name = "other".to_string();
    document.ensure_label();
    assert_eq!(document.label, labelled.label);
}

#[test]
fn blank_parts_are_not_pushed() {
    let mut parts = vec!["a".to_string()];
    push_non_empty(&mut parts, " b ");
    push_non_empty(&mut parts, " \t");
    push_optional(&mut parts, &None);
    push_optional(&mut parts, &Some("c".to_string()));
    assert_eq!(parts, vec!["a", "b", "c"]);
}

#[test]
fn documents_compare_as_their_numbers_do() {
    let mut other = document();
    assert_eq!(other, document());
    other.latitude = Float64 { bits: f64::NAN.to_bits() };
    assert_ne!(other, other.clone());
}
