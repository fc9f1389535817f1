use geosearch::bytes::count_lines;
use geosearch::document::{AddressParts, AdminHierarchy, GeoDocument};
use geosearch::float::{Float32, Float64};
use geosearch::grid::{cell_for_point, cells_for_bounds};
use geosearch::local::{
    load_all_documents, merge_documents, schema_text, write_index, DocumentFigures, IndexFiles,
    LocalBackend,
};
use geosearch::offsets::OffsetSet;
use geosearch::ordered::TextMap;
use geosearch::query::{
    AutocompleteQuery, ForwardQuery, Point, ReverseQuery, SchemaDefinition, SearchHit,
};
use geosearch::record::{
    decode_document, line_of_row, row_numerals, DocumentNumbers, DocumentNumerals,
};
use geosearch::search::{
    autocomplete_hits, autocomplete_offsets, forward_hits, forward_offsets, reverse_hits,
    reverse_offsets, search_terms, CellBounds, Measure,
};
use geosearch::text::split_lines;

fn double(value: f64) -> Float64 {
    Float64 { bits: value.to_bits() }
}

fn single(value: f32) -> Float32 {
    Float32 { bits: value.to_bits() }
}

fn of_double(value: Float64) -> f64 {
    f64::from_bits(value.bits)
}

fn of_single(value: Float32) -> f32 {
    f32::from_bits(value.bits)
}

fn cell(degrees: f64) -> i32 {
    (degrees / 0.05).floor() as i32
}

fn figures_of(document: &GeoDocument) -> DocumentFigures {
    DocumentFigures {
        numerals: DocumentNumerals {
            latitude: of_double(document.latitude).to_string(),
            longitude: of_double(document.longitude).to_string(),
            popularity: of_single(document.popularity).to_string(),
        },
        lat_cell: cell(of_double(document.latitude)),
        lon_cell: cell(of_double(document.longitude)),
    }
}

fn numbers_of(line: &str) -> DocumentNumbers {
    let numerals = row_numerals(line);
    let numeral = |pick: fn(&DocumentNumerals) -> &String| {
        numerals.as_ref().map(|all| pick(all).clone()).unwrap_or_default()
    };
    DocumentNumbers {
        latitude: numeral(|all| &all.latitude)
            .parse::<f64>()
            .map(double)
            .map_err(|error| error.to_string()),
        longitude: numeral(|all| &all.longitude)
            .parse::<f64>()
            .map(double)
            .map_err(|error| error.to_string()),
        popularity: numeral(|all| &all.popularity)
            .parse::<f32>()
            .map(single)
            .map_err(|error| error.to_string()),
    }
}

fn load(files: &IndexFiles) -> TextMap<GeoDocument> {
    let lines = split_lines(&files.docs);
    let numbers = lines.iter().map(|line| numbers_of(line)).collect();
    load_all_documents(&lines, &numbers).unwrap()
}

fn write(docs: &TextMap<GeoDocument>) -> IndexFiles {
    let figures = (0..docs.len()).map(|i| figures_of(docs.value_at(i))).collect();
    write_index(docs, &figures)
}

fn index(docs: &[GeoDocument]) -> IndexFiles {
    let mut all = TextMap::new();
    merge_documents(&mut all, docs);
    write(&all)
}

fn read(files: &IndexFiles, offsets: &OffsetSet) -> Vec<GeoDocument> {
    (0..offsets.len())
        .map(|i| {
            let start = offsets.at(i) as usize;
            let rest = &files.docs[start..];
            let end = rest.find('\n').map_or(rest.len(), |end| end + 1);
            let line = line_of_row(&rest[..end]);
            decode_document(&line, &numbers_of(&line)).unwrap()
        })
        .collect()
}

fn distance(a: Point, b: Point) -> f64 {
    let (lat1, lat2) = (of_double(a.latitude).to_radians(), of_double(b.latitude).to_radians());
    let d_lon = (of_double(b.longitude) - of_double(a.longitude)).to_radians();
    let sin_lat = ((lat2 - lat1) / 2.0).sin();
    let sin_lon = (d_lon / 2.0).sin();
    let h = sin_lat * sin_lat + lat1.cos() * lat2.cos() * sin_lon * sin_lon;
    2.0 * 6_371_000.0 * h.sqrt().asin()
}

fn measures(point: Point, docs: &[GeoDocument], scale: f32) -> Vec<Measure> {
    docs.iter()
        .map(|document| {
            let meters = distance(
                point,
                Point { latitude: document.latitude, longitude: document.longitude },
            );
            Measure {
                distance_meters: double(meters),
                score: single(of_single(document.popularity) - meters as f32 / scale),
            }
        })
        .collect()
}

fn forward(files: &IndexFiles, query: &ForwardQuery) -> Vec<SearchHit> {
    let Some(terms) = search_terms(&query.text) else {
        return Vec::new();
    };
    let docs = read(files, &forward_offsets(&terms, Some(&files.terms)));
    let measures = query.focus.map(|point| measures(point, &docs, 100_000.0));
    forward_hits(query, &docs, measures.as_ref())
}

fn autocomplete(files: &IndexFiles, query: &AutocompleteQuery) -> Vec<SearchHit> {
    let Some(terms) = search_terms(&query.text) else {
        return Vec::new();
    };
    let docs = read(files, &autocomplete_offsets(&terms, Some(&files.terms)));
    autocomplete_hits(query, &docs)
}

fn reverse(files: &IndexFiles, query: &ReverseQuery) -> Vec<SearchHit> {
    let (lat, lon) = (of_double(query.point.latitude), of_double(query.point.longitude));
    let km = f64::from(query.radius_meters) / 1000.0;
    let lat_delta = km / 110.574;
    let lon_delta = km / (111.320 * lat.to_radians().cos().abs().max(0.01));
    let bounds = CellBounds {
        min_lat_cell: cell(lat - lat_delta),
        min_lon_cell: cell(lon - lon_delta),
        max_lat_cell: cell(lat + lat_delta),
        max_lon_cell: cell(lon + lon_delta),
    };
    let docs = read(files, &reverse_offsets(bounds, Some(&files.cells)));
    reverse_hits(query, &docs, &measures(query.point, &docs, 10_000.0))
}

fn sample_docs() -> Vec<GeoDocument> {
    vec![
        GeoDocument {
            id: "wof:locality:bogota".to_string(),
            source: "whosonfirst".to_string(),
            layer: "locality".to_string(),
            name: "Bogotá".to_string(),
            label: "Bogotá, Colombia".to_string(),
            country_code: "CO".to_string(),
            latitude: double(4.711),
            longitude: double(-74.0721),
            admin_hierarchy: AdminHierarchy {
                country: Some("Colombia".to_string()),
                region: Some("Bogotá D.C.".to_string()),
                ..AdminHierarchy::default()
            },
            address: AddressParts::default(),
            aliases: vec!["Bogota".to_string()],
            popularity: single(10.0),
        },
        GeoDocument {
            id: "oa:address:calle-72".to_string(),
            source: "openaddresses".to_string(),
            layer: "address".to_string(),
            name: "Calle 72".to_string(),
            label: "Calle 72, Bogotá, Colombia".to_string(),
            country_code: "CO".to_string(),
            latitude: double(4.658),
            longitude: double(-74.059),
            admin_hierarchy: AdminHierarchy {
                country: Some("Colombia".to_string()),
                locality: Some("Bogotá".to_string()),
                ..AdminHierarchy::default()
            },
            address: AddressParts {
                street: Some("Calle 72".to_string()),
                ..AddressParts::default()
            },
            aliases: vec![],
            popularity: single(5.0),
        },
    ]
}

fn text_query(text: &str) -> ForwardQuery {
    ForwardQuery {
        text: text.to_string(),
        country_code: Some("CO".to_string()),
        focus: None,
        limit: 5,
    }
}

#[test]
fn indexes_and_searches_forward_autocomplete_and_reverse() {
    let backend = LocalBackend::open("work/index").unwrap();
    assert_eq!(backend.root(), "work/index");
    assert_eq!(backend.name(), "local-offset-index");
    let schema = schema_text(&SchemaDefinition {
        country_code: "CO".to_string(),
        languages: vec!["es".to_string()],
        layers: vec![],
    });
    assert_eq!(schema, "country_code=CO\nlanguages=es\nlayers=\n");
    let files = index(&sample_docs());

    let forward_hits = forward(
        &files,
        &ForwardQuery {
            text: "Bogota".to_string(),
            country_code: Some("CO".to_string()),
            focus: None,
            limit: 5,
        },
    );
    assert_eq!(forward_hits[0].document.name, "Bogotá");

    let autocomplete_hits = autocomplete(
        &files,
        &AutocompleteQuery {
            text: "Call".to_string(),
            country_code: Some("CO".to_string()),
            limit: 5,
        },
    );
    assert_eq!(autocomplete_hits[0].document.layer, "address");

    let reverse_hits = reverse(
        &files,
        &ReverseQuery {
            point: Point {
                latitude: double(4.6581),
                longitude: double(-74.0591),
            },
            radius_meters: 250,
            limit: 5,
        },
    );
    assert_eq!(reverse_hits[0].document.id, "oa:address:calle-72");
}

#[test]
fn the_files_of_an_index_are_exact() {
    let files = index(&sample_docs());
    let calle = "oa:address:calle-72\topenaddresses\taddress\tCalle 72\tCalle 72, Bogotá, Colombia\tCO\t4.658\t-74.059\t5\tColombia\t\t\tBogotá\t\t\tCalle 72\t\t\n";
    let bogota = "wof:locality:bogota\twhosonfirst\tlocality\tBogotá\tBogotá, Colombia\tCO\t4.711\t-74.0721\t10\tColombia\tBogotá D.C.\t\t\t\t\t\t\tBogota\n";
    assert_eq!(files.docs, format!("{calle}{bogota}"));
    let second = calle.len();
    assert_eq!(
        files.terms,
        format!(
            "72\t0\nbogota\t0,{second}\nc\t{second}\ncalle\t0\ncolombia\t0,{second}\nd\t{second}\n"
        )
    );
    assert_eq!(files.cells, format!("93:-1482\t0\n94:-1482\t{second}\n"));
    let backend = LocalBackend::open("x").unwrap();
    assert_eq!(backend.count_documents(Some(files.docs.as_bytes())), 2);
    assert_eq!(backend.count_documents(None), 0);
}

#[test]
fn documents_are_read_back() {
    let files = index(&sample_docs());
    let docs = load(&files);
    assert_eq!(docs.len(), 2);
    assert_eq!(docs.value_at(0), &sample_docs()[1]);
    assert_eq!(docs.value_at(1), &sample_docs()[0]);
    assert_eq!(docs.key_at(1), "wof:locality:bogota");
    assert_eq!(write(&docs).docs, files.docs);
}

#[test]
fn the_last_document_with_an_identifier_counts() {
    let mut docs = sample_docs();
    let mut other = docs[0].clone();
    other.name = "Santafé".to_string();
    docs.push(other);
    let files = index(&docs);
    assert_eq!(count_lines(files.docs.as_bytes()), 2);
    assert_eq!(forward(&files, &text_query("santafe")).len(), 1);
    let mut again = load(&files);
    merge_documents(&mut again, &docs);
    assert_eq!(write(&again).docs, files.docs);
}

#[test]
fn batches_come_to_the_same_as_one() {
    let docs = sample_docs();
    let first = index(&docs[..1]);
    let mut all = load(&first);
    merge_documents(&mut all, &docs[1..]);
    let batched = write(&all);
    let whole = index(&docs);
    assert_eq!(batched.docs, whole.docs);
    assert_eq!(batched.terms, whole.terms);
    assert_eq!(batched.cells, whole.cells);
}

#[test]
fn rows_at_fault_are_not_loaded() {
    let lines = vec!["a\tb".to_string()];
    let error = load_all_documents(&lines, &vec![numbers_of(&lines[0])]).unwrap_err();
    assert_eq!(error.message(), "invalid document row: expected 18 fields, got 2");
    let files = index(&sample_docs());
    let broken = files.docs.replace("4.658", "north");
    let lines = split_lines(&broken);
    let numbers = lines.iter().map(|line| numbers_of(line)).collect();
    let error = load_all_documents(&lines, &numbers).unwrap_err();
    assert_eq!(error.message(), "invalid float literal");
}

#[test]
fn all_terms_have_to_match() {
    let files = index(&sample_docs());
    assert_eq!(forward(&files, &text_query("Bogotá")).len(), 2);
    assert_eq!(forward(&files, &text_query("bogota calle")).len(), 1);
    assert_eq!(forward(&files, &text_query("bogota medellin")).len(), 0);
    assert_eq!(forward(&files, &text_query("bog")).len(), 0);
    assert_eq!(forward(&files, &text_query("...")).len(), 0);
    let completion = |text: &str| {
        autocomplete(
            &files,
            &AutocompleteQuery { text: text.to_string(), country_code: None, limit: 5 },
        )
        .len()
    };
    assert_eq!(completion("bog"), 2);
    assert_eq!(completion("calle bog"), 1);
    assert_eq!(completion("cal bogota"), 0);
    for text in ["bogota", "calle 72", "colombia bogota"] {
        assert!(forward(&files, &text_query(text)).len() <= completion(text));
    }
}

#[test]
fn hits_are_of_the_country() {
    let files = index(&sample_docs());
    let mut query = text_query("bogota");
    query.country_code = Some("VE".to_string());
    assert!(forward(&files, &query).is_empty());
    query.country_code = None;
    assert_eq!(forward(&files, &query).len(), 2);
}

#[test]
fn hits_are_ranked_and_limited() {
    let files = index(&sample_docs());
    let hits = forward(&files, &text_query("bogota"));
    assert_eq!(hits[0].document.id, "wof:locality:bogota");
    assert_eq!(hits[0].score, single(10.0));
    assert_eq!(hits[0].distance_meters, None);
    assert_eq!(hits[1].score, single(5.0));
    let mut query = text_query("bogota");
    query.limit = 0;
    assert_eq!(forward(&files, &query).len(), 1);
    query.limit = 5;
    query.focus = Some(Point { latitude: double(4.658), longitude: double(-74.059) });
    let hits = forward(&files, &query);
    assert_eq!(hits.len(), 2);
    assert_eq!(hits[1].distance_meters, Some(double(0.0)));
    assert!(of_single(hits[0].score) < 10.0);
}

#[test]
fn a_missing_file_is_an_empty_index() {
    let terms = vec!["bogota".to_string()];
    assert_eq!(forward_offsets(&terms, None).len(), 0);
    assert_eq!(autocomplete_offsets(&terms, None).len(), 0);
    let bounds = CellBounds { min_lat_cell: 0, min_lon_cell: 0, max_lat_cell: 1, max_lon_cell: 1 };
    assert_eq!(reverse_offsets(bounds, None).len(), 0);
}

#[test]
fn cells_are_named_by_row_and_column() {
    assert_eq!(cell_for_point(93, -1482), "93:-1482");
    assert_eq!(cells_for_bounds(-1, 2, 0, 3), vec!["-1:2", "-1:3", "0:2", "0:3"]);
    assert!(cells_for_bounds(1, 0, 0, 5).is_empty());
    assert!(cells_for_bounds(0, 5, 1, 0).is_empty());
    assert_eq!(
        cells_for_bounds(i32::MAX, i32::MIN, i32::MAX, i32::MIN),
        vec!["2147483647:-2147483648"]
    );
}

#[test]
fn lines_of_bytes_are_counted_as_std_counts_them() {
    for text in ["", "\n", "a", "a\n", "a\nb", "\n\n", "ñ\r\nb"] {
        assert_eq!(count_lines(text.as_bytes()), text.lines().count() as u64, "{text:?}");
    }
}

#[test]
fn batches_of_any_size_leave_the_same_files() {
    let mut docs = sample_docs();
    docs[0].admin_hierarchy.country = Some(String::new());
    docs[1].name = "tab\tand\nline\\".to_string();
    for i in 0..5 {
        let mut document = docs[i % 2].clone();
        document.id = format!("copy:{}", i % 3);
        document.popularity = single(i as f32);
        docs.push(document);
    }
    let whole = index(&docs);
    for size in [1, 2, 3, 100] {
        let mut files = IndexFiles {
            docs: String::new(),
            terms: String::new(),
            cells: String::new(),
        };
        for batch in docs.chunks(size) {
            let mut all = load(&files);
            merge_documents(&mut all, batch);
            files = write(&all);
        }
        assert_eq!(files.docs, whole.docs);
        assert_eq!(files.terms, whole.terms);
        assert_eq!(files.cells, whole.cells);
    }
}

#[test]
fn documents_are_counted_by_their_identifiers() {
    let mut docs = sample_docs();
    docs[0].name = "a\nb\tc\\d".to_string();
    docs.push(docs[0].clone());
    let backend = LocalBackend::open("x").unwrap();
    assert_eq!(backend.count_documents(None), 0);
    assert_eq!(backend.count_documents(Some(index(&docs).docs.as_bytes())), 2);
    assert_eq!(backend.count_documents(Some(index(&[]).docs.as_bytes())), 0);
}

#[test]
fn only_candidate_rows_count() {
    let files = index(&sample_docs());
    let mut broken = files.clone();
    broken.docs = files.docs.replace("whosonfirst\tlocality", "who\tson first locality");
    let hits = forward(&files, &text_query("calle"));
    assert_eq!(hits.len(), 1);
    assert_eq!(forward(&broken, &text_query("calle")), hits);
}
