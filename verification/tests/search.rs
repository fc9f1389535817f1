use geosearch::document::{AddressParts, AdminHierarchy, GeoDocument};
use geosearch::float::{Float32, Float64};
use geosearch::query::{
    bounded_limit, AutocompleteQuery, Bounds, ForwardQuery, Point, ReverseQuery, SearchHit,
};
use geosearch::search::{
    autocomplete_hits, forward_hits, reverse_hits, score_offsets, Measure,
};

fn double(value: f64) -> Float64 {
    Float64 { bits: value.to_bits() }
}

fn single(value: f32) -> Float32 {
    Float32 { bits: value.to_bits() }
}

fn document(id: &str, popularity: f32) -> GeoDocument {
    GeoDocument {
        id: id.to_string(),
        source: "csv".to_string(),
        layer: "venue".to_string(),
        name: id.to_string(),
        label: id.to_string(),
        country_code: "CO".to_string(),
        latitude: double(0.0),
        longitude: double(0.0),
        admin_hierarchy: AdminHierarchy::default(),
        address: AddressParts::default(),
        aliases: vec![],
        popularity: single(popularity),
    }
}

fn measure(distance: f64, score: f32) -> Measure {
    Measure { distance_meters: double(distance), score: single(score) }
}

fn ids(hits: &[SearchHit]) -> Vec<&str> {
    hits.iter().map(|hit| hit.document.id.as_str()).collect()
}

fn completion(limit: usize) -> AutocompleteQuery {
    AutocompleteQuery { text: "x".to_string(), country_code: None, limit }
}

#[test]
fn the_highest_score_comes_first_and_ties_stay() {
    let docs = vec![
        document("a", 1.0),
        document("b", 3.0),
        document("c", 1.0),
        document("d", 2.0),
        document("e", 3.0),
    ];
    let hits = autocomplete_hits(&completion(10), &docs);
    assert_eq!(ids(&hits), vec!["b", "e", "d", "a", "c"]);
    assert_eq!(ids(&autocomplete_hits(&completion(2), &docs)), vec!["b", "e"]);
    assert_eq!(hits[2].score, single(2.0));
    assert_eq!(hits[2].distance_meters, None);
}

#[test]
fn the_nearest_comes_first_and_then_the_highest_score() {
    let docs = vec![
        document("a", 0.0),
        document("b", 0.0),
        document("c", 0.0),
        document("d", 0.0),
        document("e", 0.0),
    ];
    let measures = vec![
        measure(9.0, 1.0),
        measure(2.0, 1.0),
        measure(9.0, 5.0),
        measure(250.0, 7.0),
        measure(250.001, 9.0),
    ];
    let query = ReverseQuery {
        point: Point { latitude: double(0.0), longitude: double(0.0) },
        radius_meters: 250,
        limit: 10,
    };
    let hits = reverse_hits(&query, &docs, &measures);
    assert_eq!(ids(&hits), vec!["b", "c", "a", "d"]);
    assert_eq!(hits[3].distance_meters, Some(double(250.0)));
}

#[test]
fn a_distance_that_is_no_number_is_not_near() {
    let docs = vec![document("a", 0.0), document("b", 0.0)];
    let measures = vec![measure(f64::NAN, 1.0), measure(0.0, f32::NAN)];
    let query = ReverseQuery {
        point: Point { latitude: double(0.0), longitude: double(0.0) },
        radius_meters: 0,
        limit: 10,
    };
    assert_eq!(ids(&reverse_hits(&query, &docs, &measures)), vec!["b"]);
}

#[test]
fn a_hundred_hits_are_the_most() {
    let docs: Vec<GeoDocument> = (0..150)
        .map(|i| document(&i.to_string(), ((i * 37) % 150) as f32))
        .collect();
    let hits = autocomplete_hits(&completion(1000), &docs);
    assert_eq!(hits.len(), 100);
    for (i, hit) in hits.iter().enumerate() {
        assert_eq!(hit.score, single((149 - i) as f32));
    }
}

#[test]
fn ranking_is_that_of_a_stable_sort() {
    let docs: Vec<GeoDocument> = (0..60)
        .map(|i| document(&i.to_string(), ((i * 7) % 9) as f32))
        .collect();
    let mut expected: Vec<&GeoDocument> = docs.iter().collect();
    expected.sort_by(|a, b| {
        let (a, b) = (f32::from_bits(a.popularity.bits), f32::from_bits(b.popularity.bits));
        b.partial_cmp(&a).unwrap()
    });
    let expected: Vec<&str> = expected.iter().map(|document| document.id.as_str()).collect();
    assert_eq!(ids(&autocomplete_hits(&completion(100), &docs)), expected);
}

#[test]
fn measures_give_score_and_distance() {
    let docs = vec![document("a", 1.0), document("b", 1.0)];
    let measures = vec![measure(5.0, 0.5), measure(1.0, 0.75)];
    let query = ForwardQuery {
        text: "x".to_string(),
        country_code: Some("CO".to_string()),
        focus: Some(Point { latitude: double(1.0), longitude: double(2.0) }),
        limit: 3,
    };
    let hits = forward_hits(&query, &docs, Some(&measures));
    assert_eq!(ids(&hits), vec!["b", "a"]);
    assert_eq!(hits[0].score, single(0.75));
    assert_eq!(hits[0].distance_meters, Some(double(1.0)));
}

#[test]
fn other_countries_are_left_out() {
    let mut docs = vec![document("a", 1.0), document("b", 2.0)];
    docs[1].country_code = "VE".to_string();
    assert_eq!(ids(&score_offsets(&docs, None, &Some("CO".to_string()))), vec!["a"]);
    assert_eq!(ids(&score_offsets(&docs, None, &Some("VE".to_string()))), vec!["b"]);
    assert_eq!(ids(&score_offsets(&docs, None, &None)), vec!["a", "b"]);
}

#[test]
fn limits_are_between_one_and_a_hundred() {
    assert_eq!(bounded_limit(0), 1);
    assert_eq!(bounded_limit(1), 1);
    assert_eq!(bounded_limit(57), 57);
    assert_eq!(bounded_limit(100), 100);
    assert_eq!(bounded_limit(usize::MAX), 100);
}

#[test]
fn bounds_hold_their_edges() {
    let bounds = Bounds {
        min_lon: double(-79.1),
        min_lat: double(-4.3),
        max_lon: double(-66.8),
        max_lat: double(13.5),
    };
    let inside = |latitude: f64, longitude: f64| {
        bounds.contains(Point { latitude: double(latitude), longitude: double(longitude) })
    };
    assert!(inside(4.7, -74.0));
    assert!(inside(-4.3, -79.1));
    assert!(inside(13.5, -66.8));
    assert!(!inside(13.6, -70.0));
    assert!(!inside(-4.4, -70.0));
    assert!(!inside(0.0, -79.2));
    assert!(!inside(0.0, -66.7));
    assert!(!inside(f64::NAN, -70.0));
    assert!(!inside(0.0, f64::NAN));
}
