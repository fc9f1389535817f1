use geosearch::backend::{BackendError, ElasticsearchBackend, ManticoreBackend, SearchBackend};
use geosearch::float::Float64;
use geosearch::query::{AutocompleteQuery, ForwardQuery, Point, ReverseQuery, SchemaDefinition};

fn schema() -> SchemaDefinition {
    SchemaDefinition {
        country_code: "CO".to_string(),
        languages: vec!["es".to_string()],
        layers: vec![],
    }
}

fn messages(backend: &dyn SearchBackend) -> Vec<String> {
    let forward = ForwardQuery {
        text: "Bogota".to_string(),
        country_code: None,
        focus: None,
        limit: 5,
    };
    let autocomplete = AutocompleteQuery {
        text: "Bog".to_string(),
        country_code: None,
        limit: 5,
    };
    let origin = Float64 { bits: 0 };
    let reverse = ReverseQuery {
        point: Point { latitude: origin, longitude: origin },
        radius_meters: 1,
        limit: 1,
    };
    vec![
        backend.create_schema(&schema()).unwrap_err().to_string(),
        backend.bulk_index(&[]).unwrap_err().to_string(),
        backend.forward(&forward).unwrap_err().to_string(),
        backend.autocomplete(&autocomplete).unwrap_err().to_string(),
        backend.reverse(&reverse).unwrap_err().to_string(),
    ]
}

#[test]
fn errors_carry_their_message() {
    let error = BackendError::new("no such file");
    assert_eq!(error.message(), "no such file");
    assert_eq!(error.to_string(), "no such file");
    assert_eq!(error.clone(), error);
}

#[test]
fn manticore_records_its_endpoint_only() {
    let backend = ManticoreBackend::new("http://localhost:9308");
    assert_eq!(backend.endpoint(), "http://localhost:9308");
    assert_eq!(backend.name(), "manticore");
    assert_eq!(
        messages(&backend),
        vec![
            "Manticore schema creation is not implemented yet",
            "Manticore bulk indexing is not implemented yet",
            "Manticore forward search is not implemented yet",
            "Manticore autocomplete is not implemented yet",
            "Manticore reverse search is not implemented yet",
        ]
    );
}

#[test]
fn elasticsearch_records_its_endpoint_only() {
    let backend = ElasticsearchBackend::new("http://localhost:9200");
    assert_eq!(backend.endpoint(), "http://localhost:9200");
    assert_eq!(backend.name(), "elasticsearch");
    assert_eq!(
        messages(&backend),
        vec![
            "Elasticsearch schema creation is not implemented yet",
            "Elasticsearch bulk indexing is not implemented yet",
            "Elasticsearch forward search is not implemented yet",
            "Elasticsearch autocomplete is not implemented yet",
            "Elasticsearch reverse search is not implemented yet",
        ]
    );
}
