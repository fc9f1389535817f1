//! What the values of the types of this library hold.
use vstd::prelude::*;

use crate::config;
use crate::config::CountryConfig;
use crate::document::{DocumentView, GeoDocument};
use crate::http::{HitNumerals, Route, RouteView};
use crate::ingest;
use crate::ingest::{Command, CommandView};
use crate::local;
use crate::local::DocumentFigures;
use crate::query::SearchHit;
use crate::record::DocumentNumbers;
use crate::search;
use crate::search::Measure;

verus! {

/// A document holds what its fields hold.
pub proof fn law_document_holds_its_fields(document: GeoDocument)
    ensures
        document@.id == document.id@,
        document@.source == document.source@,
        document@.layer == document.layer@,
        document@.name == document.name@,
        document@.label == document.label@,
        document@.country_code == document.country_code@,
        document@.latitude == document.latitude,
        document@.longitude == document.longitude,
        document@.popularity == document.popularity,
        document@.aliases == document.aliases.deep_view(),
        document@.admin_hierarchy.country == document.admin_hierarchy.country.deep_view(),
        document@.admin_hierarchy.region == document.admin_hierarchy.region.deep_view(),
        document@.admin_hierarchy.county == document.admin_hierarchy.county.deep_view(),
        document@.admin_hierarchy.locality == document.admin_hierarchy.locality.deep_view(),
        document@.admin_hierarchy.neighbourhood
            == document.admin_hierarchy.neighbourhood.deep_view(),
        document@.address.house_number == document.address.house_number.deep_view(),
        document@.address.street == document.address.street.deep_view(),
        document@.address.postal_code == document.address.postal_code.deep_view(),
{
}

/// A hit holds its document, its score and its distance, and its numerals what they are named
/// after.
pub proof fn law_hit_holds_its_fields(hit: SearchHit, numerals: HitNumerals)
    ensures
        hit@.document == hit.document@,
        hit@.score == hit.score,
        hit@.distance_meters == hit.distance_meters,
        numerals@.longitude == numerals.longitude@,
        numerals@.latitude == numerals.latitude@,
        numerals@.score == numerals.score@,
        numerals@.distance == numerals.distance@,
{
}

/// The figures of a document hold its numerals and its cell, and its numbers the numbers or why
/// there are none.
pub proof fn law_figures_hold_their_fields(figures: DocumentFigures, numbers: DocumentNumbers)
    ensures
        figures@.numerals.latitude == figures.numerals.latitude@,
        figures@.numerals.longitude == figures.numerals.longitude@,
        figures@.numerals.popularity == figures.numerals.popularity@,
        figures@.lat_cell == figures.lat_cell,
        figures@.lon_cell == figures.lon_cell,
        numbers@.latitude == match numbers.latitude {
            Ok(number) => Ok(number),
            Err(message) => Err(message@),
        },
        numbers@.longitude == match numbers.longitude {
            Ok(number) => Ok(number),
            Err(message) => Err(message@),
        },
        numbers@.popularity == match numbers.popularity {
            Ok(number) => Ok(number),
            Err(message) => Err(message@),
        },
{
}

/// A configuration holds what its fields hold.
pub proof fn law_configuration_holds_its_fields(config: CountryConfig)
    ensures
        config@.country_code == config.country_code@,
        config@.country_name == config.country_name@,
        config@.languages == config.languages.deep_view(),
        config@.timezone == config.timezone@,
        config@.bounds == config.bounds,
        config@.search.default_limit == config.search.default_limit,
        config@.search.autocomplete_limit == config.search.autocomplete_limit,
        config@.search.reverse_radius_meters == config.search.reverse_radius_meters,
        config@.search.preferred_layers == config.search.preferred_layers.deep_view(),
{
}

/// A route holds the parameters of its request, and a command what it was given.
pub proof fn law_routes_and_commands_hold_their_fields(route: Route, command: Command)
    ensures
        route@ == match route {
            Route::MethodNotAllowed => RouteView::MethodNotAllowed,
            Route::Health => RouteView::Health,
            Route::Search(params) => RouteView::Search(params@),
            Route::Autocomplete(params) => RouteView::Autocomplete(params@),
            Route::Reverse(params) => RouteView::Reverse(params@),
            Route::NotFound => RouteView::NotFound,
        },
        command@ == match command {
            Command::Prepare(job) => CommandView::Prepare {
                config: job.config@,
                input: job.input@,
                output: job.output@,
                batch_size: job.batch_size as int,
            },
            Command::Stats(index) => CommandView::Stats { index: index@ },
            Command::Usage => CommandView::Usage,
        },
{
}

/// A list holds what its elements hold, each in its place.
pub proof fn law_lists_hold_their_elements(
    docs: Seq<GeoDocument>,
    results: Seq<Result<GeoDocument, String>>,
    batches: Seq<Vec<GeoDocument>>,
    measures: Vec<Measure>,
)
    ensures
        local::views_of(docs).len() == docs.len(),
        forall|i: int| 0 <= i < docs.len() ==> #[trigger] local::views_of(docs)[i] == docs[i]@,
        ingest::outcomes(results).len() == results.len(),
        forall|i: int|
            0 <= i < results.len() ==> #[trigger] ingest::outcomes(results)[i] == match results[i] {
                Ok(document) => Ok::<DocumentView, Seq<char>>(document@),
                Err(message) => Err(message@),
            },
        ingest::batch_views(batches).len() == batches.len(),
        forall|i: int|
            0 <= i < batches.len() ==> #[trigger] ingest::batch_views(batches)[i]
                == batches[i].deep_view(),
        search::measured(Some(&measures)) == Some(measures@),
        search::measured(None) is None,
{
}

/// The documents of batches are those of the first batches and then those of the last.
pub proof fn law_batches_together(batches: Seq<Seq<DocumentView>>, batch: Seq<DocumentView>)
    ensures
        ingest::together(Seq::<Seq<DocumentView>>::empty()) == Seq::<DocumentView>::empty(),
        ingest::together(batches.push(batch)) == ingest::together(batches) + batch,
{
    assert(batches.push(batch).drop_last() =~= batches);
}

/// An optional value is that of its key where there is one.
pub proof fn law_optional_values(values: Map<Seq<char>, Seq<char>>, key: Seq<char>)
    ensures
        values.contains_key(key) ==> config::value_of(values, key) == Some(values[key]),
        !values.contains_key(key) ==> config::value_of(values, key) is None,
{
}

} // verus!
