use geosearch::api::{
    autocomplete_query, focus_numerals, point_numerals, reverse_query, search_query,
    server_settings, PointNumbers, PointNumerals, ServerEnvironment,
};
use geosearch::config::{CountryConfig, SearchConfig};
use geosearch::document::{AddressParts, AdminHierarchy, GeoDocument};
use geosearch::flags::parse_flags;
use geosearch::float::{Float32, Float64};
use geosearch::http::{
    answer_text, feature_json, immediate_answer, is_decodable, is_query_decodable,
    is_request_decodable, json_escape, parse_query, response_json, response_text, route,
    url_decode, HitNumerals, Route,
};
use geosearch::query::{Bounds, SearchHit};

fn double(value: f64) -> Float64 {
    Float64 { bits: value.to_bits() }
}

fn config() -> CountryConfig {
    CountryConfig {
        country_code: "CO".to_string(),
        country_name: "Colombia".to_string(),
        languages: vec!["es".to_string()],
        timezone: "America/Bogota".to_string(),
        bounds: Bounds {
            min_lon: double(-79.0),
            min_lat: double(-4.0),
            max_lon: double(-66.0),
            max_lat: double(13.0),
        },
        search: SearchConfig {
            default_limit: 10,
            autocomplete_limit: 7,
            reverse_radius_meters: 250,
            preferred_layers: vec![],
        },
    }
}

fn number(text: &Option<String>) -> Result<Float64, String> {
    text.clone()
        .unwrap_or_default()
        .parse::<f64>()
        .map(double)
        .map_err(|error| error.to_string())
}

fn numbers(numerals: &PointNumerals) -> PointNumbers {
    PointNumbers {
        latitude: number(&numerals.latitude),
        longitude: number(&numerals.longitude),
    }
}

fn hit(distance: Option<f64>) -> SearchHit {
    SearchHit {
        document: GeoDocument {
            id: "a\"b".to_string(),
            source: "csv".to_string(),
            layer: "venue".to_string(),
            name: "Bogotá".to_string(),
            label: "x\\y".to_string(),
            country_code: "CO".to_string(),
            latitude: double(4.5),
            longitude: double(-74.0),
            admin_hierarchy: AdminHierarchy::default(),
            address: AddressParts::default(),
            aliases: vec![],
            popularity: Float32 { bits: 0 },
        },
        score: Float32 { bits: 2.5_f32.to_bits() },
        distance_meters: distance.map(double),
    }
}

fn hit_numerals() -> HitNumerals {
    HitNumerals {
        longitude: "-74".to_string(),
        latitude: "4.5".to_string(),
        score: "2.5".to_string(),
        distance: "12.35".to_string(),
    }
}

const FEATURE: &str = "{\"type\":\"Feature\",\"geometry\":{\"type\":\"Point\",\"coordinates\":[-74,4.5]},\"properties\":{\"id\":\"a\\\"b\",\"source\":\"csv\",\"layer\":\"venue\",\"name\":\"Bogotá\",\"label\":\"x\\\\y\",\"country_code\":\"CO\",\"score\":2.5}}";

#[test]
fn escapes_of_queries_are_decoded() {
    assert_eq!(url_decode("Calle+72"), "Calle 72");
    assert_eq!(url_decode("a%20b%2Bc%2f"), "a b+c/");
    assert_eq!(url_decode("%C3%B3"), "Ã³");
    assert_eq!(url_decode("%c3%B3%e1%Ff"), "Ã³áÿ");
    assert_eq!(url_decode("ó"), "Ã³");
    assert_eq!(url_decode("100%"), "100%");
    assert_eq!(url_decode("%4"), "%4");
    assert_eq!(url_decode("%zz%41"), "%zzA");
    assert_eq!(url_decode("%+f"), "\u{f}");
    assert_eq!(url_decode("%-1%ó"), "%-1%Ã³");
    assert_eq!(url_decode(""), "");
}

#[test]
fn escapes_that_end_inside_a_character_are_not_decodable() {
    assert!(!is_decodable("%aó"));
    assert!(is_decodable("%ó"));
    assert!(!is_decodable("x%€"));
    assert!(is_decodable("%%41ó"));
    assert!(is_decodable("a%"));
    assert!(is_query_decodable("a=1&%aó&b=2"));
    assert!(!is_query_decodable("a=1&%aó=2"));
    assert!(!is_query_decodable("a=%aó"));
    assert!(!is_request_decodable("GET /healthz?a=%aó HTTP/1.1"));
    assert!(is_request_decodable("POST /healthz?a=%aó HTTP/1.1"));
    assert!(is_request_decodable(""));
}

#[test]
fn queries_have_parameters() {
    let params = parse_query("query=Bogot%E1&limit=5&&flag&limit=6&=x&a=b=c");
    assert_eq!(params.len(), 4);
    assert_eq!(params.get("query").unwrap(), "Bogotá");
    assert_eq!(params.get("limit").unwrap(), "6");
    assert_eq!(params.get("").unwrap(), "x");
    assert_eq!(params.get("a").unwrap(), "b=c");
    assert_eq!(parse_query("").len(), 0);
}

#[test]
fn requests_are_routed() {
    assert!(route("").is_none());
    assert!(matches!(route("\r\nGET /healthz"), Some(Route::MethodNotAllowed)));
    assert!(matches!(route("POST /healthz HTTP/1.1\r\n"), Some(Route::MethodNotAllowed)));
    assert!(matches!(route("GET /healthz?x=1 HTTP/1.1\r\n"), Some(Route::Health)));
    assert!(matches!(route("GET"), Some(Route::NotFound)));
    assert!(matches!(route("GET /v1/other HTTP/1.1"), Some(Route::NotFound)));
    match route("GET /v1/search?query=a?b HTTP/1.1\r\nHost: x\r\n") {
        Some(Route::Search(params)) => assert_eq!(params.get("query").unwrap(), "a?b"),
        other => panic!("{other:?}"),
    }
    match route("GET /v1/autocomplete?text=Call HTTP/1.1") {
        Some(Route::Autocomplete(params)) => assert_eq!(params.get("text").unwrap(), "Call"),
        other => panic!("{other:?}"),
    }
    match route("GET /v1/reverse?lat=4&lon=-74 HTTP/1.1") {
        Some(Route::Reverse(params)) => assert_eq!(params.len(), 2),
        other => panic!("{other:?}"),
    }
}

#[test]
fn responses_are_framed() {
    assert_eq!(
        response_text(200, "{\"a\":\"ó\"}"),
        "HTTP/1.1 200 OK\r\nContent-Type: application/json\r\nContent-Length: 10\r\nConnection: close\r\n\r\n{\"a\":\"ó\"}"
    );
    assert!(response_text(404, "").starts_with("HTTP/1.1 404 Not Found\r\n"));
    assert!(response_text(405, "").starts_with("HTTP/1.1 405 Method Not Allowed\r\n"));
    assert!(response_text(500, "").starts_with("HTTP/1.1 500 Internal Server Error\r\n"));
    assert!(response_text(418, "").starts_with("HTTP/1.1 418 Internal Server Error\r\n"));
}

#[test]
fn outcomes_are_answered() {
    let ok = answer_text(&Ok("{}".to_string()));
    assert_eq!(ok, response_text(200, "{}"));
    let missing = answer_text(&Err("not found".to_string()));
    assert_eq!(missing, response_text(404, "{\"error\":\"not found\"}"));
    let failed = answer_text(&Err("bad \"lat\"\n".to_string()));
    assert_eq!(failed, response_text(500, "{\"error\":\"bad \\\"lat\\\"\\n\"}"));
}

#[test]
fn some_requests_need_no_search() {
    let answer = |request: &str| immediate_answer(&route(request).unwrap());
    assert_eq!(
        answer("PUT / HTTP/1.1"),
        Some(response_text(405, "{\"error\":\"method not allowed\"}"))
    );
    assert_eq!(answer("GET /healthz HTTP/1.1"), Some(response_text(200, "{\"ok\":true}")));
    assert_eq!(
        answer("GET / HTTP/1.1"),
        Some(response_text(404, "{\"error\":\"not found\"}"))
    );
    assert_eq!(answer("GET /v1/search HTTP/1.1"), None);
}

#[test]
fn texts_are_escaped_for_json() {
    assert_eq!(json_escape("a\\b\"c\nd\te"), "a\\\\b\\\"c\\nd\te");
    assert_eq!(json_escape("ñ"), "ñ");
}

#[test]
fn hits_are_features() {
    assert_eq!(feature_json(&hit(None), &hit_numerals()), FEATURE);
    let near = FEATURE.replace("2.5}}", "2.5,\"distance_meters\":12.35}}");
    assert_eq!(feature_json(&hit(Some(12.345)), &hit_numerals()), near);
    assert_eq!(
        response_json(&vec![], &vec![]),
        "{\"type\":\"FeatureCollection\",\"features\":[]}"
    );
    assert_eq!(
        response_json(&vec![hit(None), hit(Some(12.345))], &vec![hit_numerals(), hit_numerals()]),
        format!("{{\"type\":\"FeatureCollection\",\"features\":[{FEATURE},{near}]}}")
    );
}

#[test]
fn parameters_make_a_forward_query() {
    let read = |query: &str| {
        let params = parse_query(query);
        search_query(&params, &config(), &numbers(&focus_numerals(&params)))
    };
    let plain = read("query=Bogota&text=Cali").unwrap();
    assert_eq!(plain.text, "Bogota");
    assert_eq!(plain.country_code.as_deref(), Some("CO"));
    assert_eq!(plain.focus, None);
    assert_eq!(plain.limit, 10);
    assert_eq!(read("text=Cali&limit=3").unwrap().text, "Cali");
    assert_eq!(read("text=Cali&limit=3").unwrap().limit, 3);
    assert_eq!(read("limit=x").unwrap().limit, 10);
    assert_eq!(read("query=&text=a").unwrap().text, "");
    assert_eq!(read("focus_lat=x").unwrap().focus, None);
    let focus = read("focus_lat=4.5&focus_lon=-74").unwrap().focus.unwrap();
    assert_eq!(focus.latitude, double(4.5));
    assert_eq!(focus.longitude, double(-74.0));
    assert_eq!(read("focus_lat=&focus_lon=x").unwrap_err(), "cannot parse float from empty string");
    assert_eq!(read("focus_lat=4&focus_lon=x").unwrap_err(), "invalid float literal");
}

#[test]
fn parameters_make_an_autocompletion() {
    let query = autocomplete_query(&parse_query("text=Call&query=x"), &config());
    assert_eq!(query.text, "Call");
    assert_eq!(query.country_code.as_deref(), Some("CO"));
    assert_eq!(query.limit, 7);
    let query = autocomplete_query(&parse_query("limit=99"), &config());
    assert_eq!(query.text, "");
    assert_eq!(query.limit, 99);
}

#[test]
fn parameters_make_a_reverse_query() {
    let read = |query: &str| {
        let params = parse_query(query);
        reverse_query(&params, &config(), &numbers(&point_numerals(&params)))
    };
    let query = read("lat=4.6581&lon=-74.0591&radius_meters=300&limit=2").unwrap();
    assert_eq!(query.point.latitude, double(4.6581));
    assert_eq!(query.point.longitude, double(-74.0591));
    assert_eq!(query.radius_meters, 300);
    assert_eq!(query.limit, 2);
    let query = read("lat=1&lon=2&radius_meters=4294967296").unwrap();
    assert_eq!(query.radius_meters, 250);
    assert_eq!(query.limit, 10);
    assert_eq!(read("lon=x").unwrap_err(), "missing lat");
    assert_eq!(read("lat=x").unwrap_err(), "invalid float literal");
    assert_eq!(read("lat=1").unwrap_err(), "missing lon");
    assert_eq!(read("lat=1&lon=").unwrap_err(), "cannot parse float from empty string");
}

#[test]
fn settings_come_from_flags_and_then_from_the_environment() {
    let flags = |args: &[&str]| {
        let args: Vec<String> = args.iter().map(|arg| arg.to_string()).collect();
        parse_flags(&args).unwrap()
    };
    let nothing = ServerEnvironment { config: None, index: None, bind: None };
    let something = ServerEnvironment {
        config: Some("c".to_string()),
        index: Some("i".to_string()),
        bind: Some("b".to_string()),
    };
    let settings = server_settings(&flags(&["--config", "x", "--index", "y"]), &nothing).unwrap();
    assert_eq!(settings.config, "x");
    assert_eq!(settings.index, "y");
    assert_eq!(settings.bind, "127.0.0.1:8080");
    let settings = server_settings(&flags(&["--config", "x"]), &something).unwrap();
    assert_eq!(settings.config, "x");
    assert_eq!(settings.index, "i");
    assert_eq!(settings.bind, "b");
    assert_eq!(
        server_settings(&flags(&[]), &nothing).unwrap_err(),
        "missing --config or GEO_CONFIG"
    );
    assert_eq!(
        server_settings(&flags(&["--config", "x"]), &nothing).unwrap_err(),
        "missing --index or GEO_INDEX"
    );
}
