use geosearch::config::{
    bound_numerals, parse_array, parse_simple_toml, parse_u32, parse_usize, read_country_config,
    required_value, BoundNumbers, CountryConfig,
};
use geosearch::csv::{
    csv_row, csv_row_to_document, optional_row, parse_csv_line, required_row, row_numerals,
};
use geosearch::document::GeoDocument;
use geosearch::flags::{parse_flags, required};
use geosearch::float::{Float32, Float64};
use geosearch::ingest::{
    batch_size, command, plan_batches, prepared_text, read_csv_documents, stats_text, Command,
};
use geosearch::record::DocumentNumbers;

fn owned(parts: &[&str]) -> Vec<String> {
    parts.iter().map(|part| part.to_string()).collect()
}

fn double(text: &Option<String>) -> Result<Float64, String> {
    text.clone()
        .unwrap_or_default()
        .parse::<f64>()
        .map(|value| Float64 { bits: value.to_bits() })
        .map_err(|error| error.to_string())
}

fn single(text: &Option<String>) -> Result<Float32, String> {
    text.clone()
        .unwrap_or_default()
        .parse::<f32>()
        .map(|value| Float32 { bits: value.to_bits() })
        .map_err(|error| error.to_string())
}

const COLOMBIA: &str = r#"
# Country
country_code = "CO"
country_name = "Colombia" # with a comment
languages = ["es", "en",]
timezone = "America/Bogota"

[bounds]
min_lon = -79.1
min_lat = -4.3
max_lon = -66.8
max_lat = 13.5

[search]
default_limit = 10
autocomplete_limit = 7
reverse_radius_meters = 250
preferred_layers = ["address", "venue"]
no value here
"#;

fn read_config(text: &str) -> Result<CountryConfig, String> {
    let values = parse_simple_toml(text);
    let numerals = bound_numerals(&values);
    read_country_config(
        &values,
        &BoundNumbers {
            min_lon: double(&numerals.min_lon),
            min_lat: double(&numerals.min_lat),
            max_lon: double(&numerals.max_lon),
            max_lat: double(&numerals.max_lat),
        },
    )
}

fn config() -> CountryConfig {
    read_config(COLOMBIA).unwrap()
}

fn numbers_of(header: &str, line: &str) -> DocumentNumbers {
    let numerals = row_numerals(&csv_row(&parse_csv_line(header), line));
    DocumentNumbers {
        latitude: double(&numerals.lat),
        longitude: double(&numerals.lon),
        popularity: single(&numerals.popularity),
    }
}

fn document_of(header: &str, line: &str) -> Result<GeoDocument, String> {
    let row = csv_row(&parse_csv_line(header), line);
    csv_row_to_document(&row, &config(), &numbers_of(header, line))
}

fn read_lines(lines: &[&str]) -> Result<Vec<Result<GeoDocument, String>>, String> {
    let numbers = lines.iter().skip(1).map(|line| numbers_of(lines[0], line)).collect();
    read_csv_documents("data.csv", &owned(lines), &numbers, &config())
}

#[test]
fn flags_are_pairs() {
    let flags = parse_flags(&owned(&["--a", "1", "--b", "--c", "--a", "2", "--", "x"])).unwrap();
    assert_eq!(flags.len(), 3);
    assert_eq!(flags.get("a").unwrap(), "2");
    assert_eq!(flags.get("b").unwrap(), "--c");
    assert_eq!(flags.get("").unwrap(), "x");
    assert_eq!(parse_flags(&owned(&["-a", "1"])).unwrap_err(), "expected --flag, got -a");
    assert_eq!(parse_flags(&owned(&["--a"])).unwrap_err(), "missing value for --a");
    assert_eq!(parse_flags(&owned(&["--a", "1", "b"])).unwrap_err(), "expected --flag, got b");
    assert_eq!(required(&flags, "a"), Ok("2".to_string()));
    assert_eq!(required(&flags, "z"), Err("missing --z".to_string()));
}

#[test]
fn batch_sizes_are_at_least_one() {
    let size = |args: &[&str]| batch_size(&parse_flags(&owned(args)).unwrap());
    assert_eq!(size(&[]), 5000);
    assert_eq!(size(&["--batch-size", "12"]), 12);
    assert_eq!(size(&["--batch-size", "0"]), 1);
    assert_eq!(size(&["--batch-size", "many"]), 5000);
    assert_eq!(size(&["--batch-size", "-3"]), 5000);
}

#[test]
fn commands_are_told_apart() {
    assert!(matches!(command(&owned(&["geo-ingest"])), Ok(Command::Usage)));
    assert!(matches!(command(&owned(&["geo-ingest", "help", "x"])), Ok(Command::Usage)));
    let args = ["p", "prepare", "--input", "i", "--config", "c", "--output", "o"];
    match command(&owned(&args)) {
        Ok(Command::Prepare(job)) => {
            assert_eq!(job.config, "c");
            assert_eq!(job.input, "i");
            assert_eq!(job.output, "o");
            assert_eq!(job.batch_size, 5000);
        }
        other => panic!("{other:?}"),
    }
    assert_eq!(command(&owned(&args[..4])).unwrap_err(), "missing --config");
    assert_eq!(command(&owned(&["p", "prepare", "--config", "c"])).unwrap_err(), "missing --input");
    assert_eq!(command(&owned(&args[..6])).unwrap_err(), "missing --output");
    assert_eq!(command(&owned(&["p", "prepare", "x"])).unwrap_err(), "expected --flag, got x");
    assert!(matches!(
        command(&owned(&["p", "stats", "--index", "i"])),
        Ok(Command::Stats(index)) if index == "i"
    ));
    assert_eq!(command(&owned(&["p", "stats"])).unwrap_err(), "missing --index");
}

#[test]
fn configurations_are_read() {
    let config = config();
    assert_eq!(config.country_code, "CO");
    assert_eq!(config.country_name, "Colombia");
    assert_eq!(config.languages, vec!["es", "en"]);
    assert_eq!(config.timezone, "America/Bogota");
    assert_eq!(config.bounds.min_lon.bits, (-79.1_f64).to_bits());
    assert_eq!(config.bounds.min_lat.bits, (-4.3_f64).to_bits());
    assert_eq!(config.bounds.max_lon.bits, (-66.8_f64).to_bits());
    assert_eq!(config.bounds.max_lat.bits, 13.5_f64.to_bits());
    assert_eq!(config.search.default_limit, 10);
    assert_eq!(config.search.autocomplete_limit, 7);
    assert_eq!(config.search.reverse_radius_meters, 250);
    assert_eq!(config.search.preferred_layers, vec!["address", "venue"]);
}

#[test]
fn settings_of_sections_have_full_keys() {
    let values = parse_simple_toml("a=1\n[s]\na = \"x y\"\n[ t ]\nb=\"\"\na#=2\nb==3\n[]\nc=4\na=5");
    assert_eq!(values.get("s.a").unwrap(), "x y");
    assert_eq!(values.get(" t .b").unwrap(), "=3");
    assert_eq!(values.get("c").unwrap(), "4");
    assert_eq!(values.get("a").unwrap(), "5");
    assert!(values.get(" t .a").is_none());
    assert_eq!(values.len(), 4);
    assert_eq!(required_value(&values, "d").unwrap_err(), "missing config key d");
    assert_eq!(required_value(&values, "c"), Ok("4".to_string()));
    assert_eq!(parse_usize(&values, "c"), Ok(4));
    assert_eq!(parse_u32(&values, "s.a").unwrap_err(), "invalid digit found in string");
    assert_eq!(parse_usize(&values, "z").unwrap_err(), "missing config key z");
}

#[test]
fn lists_are_cut_at_commas() {
    assert_eq!(parse_array("[\"es\", en ,, \"\"]"), vec!["es", "en"]);
    assert!(parse_array("").is_empty());
    assert_eq!(parse_array("a"), vec!["a"]);
}

#[test]
fn faulty_configurations_say_why() {
    let without = |key: &str| {
        let text: String = COLOMBIA
            .lines()
            .filter(|line| !line.starts_with(key))
            .map(|line| format!("{line}\n"))
            .collect();
        read_config(&text).unwrap_err()
    };
    for key in ["country_code", "country_name", "languages", "timezone"] {
        assert_eq!(without(key), format!("missing config key {key}"));
    }
    for key in ["min_lon", "min_lat", "max_lon", "max_lat"] {
        assert_eq!(without(key), format!("missing config key bounds.{key}"));
    }
    for key in ["default_limit", "autocomplete_limit", "reverse_radius_meters", "preferred_layers"] {
        assert_eq!(without(key), format!("missing config key search.{key}"));
    }
    let with = |from: &str, to: &str| read_config(&COLOMBIA.replace(from, to)).unwrap_err();
    assert_eq!(with("-79.1", "west"), "invalid float literal");
    assert_eq!(with("default_limit = 10", "default_limit = "), "cannot parse integer from empty string");
    assert_eq!(with("= 250", "= 4294967296"), "number too large to fit in target type");
}

#[test]
fn quotation_marks_hide_commas() {
    assert_eq!(parse_csv_line("a, b ,\"c, d\",\"e \"\"f\"\"\""), vec!["a", "b", "c, d", "e \"f\""]);
    assert_eq!(parse_csv_line(""), vec![""]);
    assert_eq!(parse_csv_line(",\" x \""), vec!["", "x"]);
    assert_eq!(parse_csv_line("a\"\"b,\"c"), vec!["ab", "c"]);
    assert_eq!(parse_csv_line("\"a\"\"\",\"\"\"\""), vec!["a\"", "\""]);
}

#[test]
fn rows_have_values_by_their_headers() {
    let row = csv_row(&owned(&["id", "name", "id", "x"]), "1,A,2");
    assert_eq!(row.len(), 2);
    assert_eq!(optional_row(&row, "id"), Some("2".to_string()));
    assert_eq!(optional_row(&row, "x"), None);
    assert_eq!(required_row(&row, "name"), Ok("A".to_string()));
    assert_eq!(required_row(&row, "x").unwrap_err(), "missing required CSV column x");
    let blank = csv_row(&owned(&["id"]), " ");
    assert_eq!(optional_row(&blank, "id"), None);
    assert_eq!(csv_row(&owned(&["id"]), "1,2,3").len(), 1);
}

#[test]
fn rows_become_documents() {
    let header = "id,name,lat,lon,source,layer,label,country,region,county,locality,neighbourhood,street,house_number,postal_code,aliases,popularity";
    let full = document_of(
        header,
        "1,Calle 72,4.658,-74.059,oa,address,L,C,R,K,B,N,S,41,110231, a | |b ,2.5",
    )
    .unwrap();
    assert_eq!(full.id, "1");
    assert_eq!(full.name, "Calle 72");
    assert_eq!(full.latitude.bits, 4.658_f64.to_bits());
    assert_eq!(full.longitude.bits, (-74.059_f64).to_bits());
    assert_eq!(full.source, "oa");
    assert_eq!(full.layer, "address");
    assert_eq!(full.label, "L");
    assert_eq!(full.country_code, "CO");
    let areas = &full.admin_hierarchy;
    assert_eq!(areas.country.as_deref(), Some("C"));
    assert_eq!(areas.region.as_deref(), Some("R"));
    assert_eq!(areas.county.as_deref(), Some("K"));
    assert_eq!(areas.locality.as_deref(), Some("B"));
    assert_eq!(areas.neighbourhood.as_deref(), Some("N"));
    assert_eq!(full.address.street.as_deref(), Some("S"));
    assert_eq!(full.address.house_number.as_deref(), Some("41"));
    assert_eq!(full.address.postal_code.as_deref(), Some("110231"));
    assert_eq!(full.aliases, vec!["a", "b"]);
    assert_eq!(full.popularity.bits, 2.5_f32.to_bits());

    let plain = document_of("id,name,lat,lon,popularity", "2,Bogotá,4.7,-74,high").unwrap();
    assert_eq!(plain.source, "csv");
    assert_eq!(plain.layer, "venue");
    assert_eq!(plain.label, "Bogotá, Colombia");
    assert_eq!(plain.admin_hierarchy.country.as_deref(), Some("Colombia"));
    assert_eq!(plain.admin_hierarchy.region, None);
    assert!(plain.aliases.is_empty());
    assert_eq!(plain.popularity.bits, 0);
}

#[test]
fn faulty_rows_say_why() {
    let header = "id,name,lat,lon";
    let message = |line: &str| document_of(header, line).unwrap_err();
    assert_eq!(message(",B,x,"), "missing required CSV column id");
    assert_eq!(message("1,,x,"), "missing required CSV column name");
    assert_eq!(message("1,B,,"), "missing required CSV column lat");
    assert_eq!(message("1,B,x,"), "invalid float literal");
    assert_eq!(message("1,B,4"), "missing required CSV column lon");
    assert_eq!(message("1,B,4,y"), "invalid float literal");
}

#[test]
fn lines_become_documents() {
    assert_eq!(read_lines(&[]).unwrap_err(), "data.csv is empty");
    let docs = read_lines(&["id,name,lat,lon", "1,A,4,-74", "  ", "2,,4,-74", "3,C,5,-74"]).unwrap();
    assert_eq!(docs.len(), 3);
    assert_eq!(docs[0].as_ref().unwrap().id, "1");
    assert_eq!(
        docs[1].as_ref().unwrap_err(),
        "data.csv line 4: missing required CSV column name"
    );
    assert_eq!(docs[2].as_ref().unwrap().id, "3");
}

#[test]
fn documents_fill_batches() {
    let lines = ["id,name,lat,lon", "1,A,4,-74", "2,B,40,-74", "3,C,5,-74", "4,D,6,-74"];
    let plan = plan_batches(read_lines(&lines).unwrap(), &config().bounds, 2);
    let ids: Vec<Vec<&str>> = plan
        .batches
        .iter()
        .map(|batch| batch.iter().map(|document| document.id.as_str()).collect())
        .collect();
    assert_eq!(ids, vec![vec!["1", "3"], vec!["4"]]);
    assert_eq!(plan.imported, 3);
    assert_eq!(plan.skipped, 1);
    assert_eq!(plan.failure, None);
    let one = plan_batches(read_lines(&lines).unwrap(), &config().bounds, 1);
    assert_eq!(one.batches.len(), 3);
    assert_eq!(one.imported, 3);
    let none = plan_batches(vec![], &config().bounds, 1);
    assert!(none.batches.is_empty());
}

#[test]
fn the_first_failure_ends_the_batches() {
    let lines = ["id,name,lat,lon", "1,A,4,-74", "2,B,4,-74", "3,C,5,-74", "4,,6,-74", "5,E,6,x"];
    let plan = plan_batches(read_lines(&lines).unwrap(), &config().bounds, 2);
    assert_eq!(plan.batches.len(), 1);
    assert_eq!(plan.batches[0].len(), 2);
    assert_eq!(plan.imported, 2);
    let triple = plan_batches(read_lines(&lines).unwrap(), &config().bounds, 3);
    assert_eq!(triple.imported, 3);
    let none = plan_batches(read_lines(&lines).unwrap(), &config().bounds, 4);
    assert_eq!(none.imported, 0);
    assert_eq!(
        plan.failure.as_deref(),
        Some("data.csv line 5: missing required CSV column name")
    );
}

#[test]
fn reports_are_exact() {
    assert_eq!(
        prepared_text(12, "work/index", 3),
        "prepared 12 documents into work/index (skipped 3 outside bounds)"
    );
    assert_eq!(stats_text(42), "documents=42");
}
