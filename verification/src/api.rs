//! The web service: its settings, and the queries that the parameters of requests ask for.
use vstd::prelude::*;

use crate::config;
use crate::config::CountryConfig;
use crate::decimal;
use crate::float::Float64;
use crate::ordered::TextMap;
use crate::query::{AutocompleteQuery, ForwardQuery, Point, ReverseQuery};
use crate::record;

verus! {

/// What the environment of the process says of the service.
#[derive(Clone, Debug)]
pub struct ServerEnvironment {
    pub config: Option<String>,
    pub index: Option<String>,
    pub bind: Option<String>,
}

/// Where the service finds its configuration and its index, and the address that it listens at.
#[derive(Clone, Debug)]
pub struct ServerSettings {
    pub config: String,
    pub index: String,
    pub bind: String,
}

/// The value of a flag, or else that of the environment.
pub open spec fn flag_or(
    flags: Map<Seq<char>, Seq<char>>,
    key: Seq<char>,
    environment: Option<Seq<char>>,
) -> Option<Seq<char>> {
    if flags.contains_key(key) {
        Some(flags[key])
    } else {
        environment
    }
}

fn flag_or_environment(flags: &TextMap<String>, key: &str, environment: &Option<String>) -> (result:
    Option<String>)
    requires
        flags.wf(),
    ensures
        result.deep_view() == flag_or(flags@, key@, environment.deep_view()),
{
    match flags.get(key) {
        Some(value) => Some(value.clone()),
        None => match environment {
            Some(value) => Some(value.clone()),
            None => None,
        },
    }
}

/// The settings that the flags and the environment give. The configuration and the index have to be
/// given.
pub fn server_settings(flags: &TextMap<String>, environment: &ServerEnvironment) -> (result: Result<
    ServerSettings,
    String,
>)
    requires
        flags.wf(),
    ensures
        ({
            let config = flag_or(flags@, "config"@, environment.config.deep_view());
            let index = flag_or(flags@, "index"@, environment.index.deep_view());
            let bind = flag_or(flags@, "bind"@, environment.bind.deep_view());
            match result {
                Ok(settings) => {
                    &&& config == Some(settings.config@)
                    &&& index == Some(settings.index@)
                    &&& settings.bind@ == match bind {
                        Some(address) => address,
                        None => "127.0.0.1:8080"@,
                    }
                },
                Err(message) => {
                    ||| config is None && message@ == "missing --config or GEO_CONFIG"@
                    ||| config is Some && index is None && message@
                        == "missing --index or GEO_INDEX"@
                },
            }
        }),
{
    let config = match flag_or_environment(flags, "config", &environment.config) {
        Some(value) => value,
        None => return Err("missing --config or GEO_CONFIG".to_owned()),
    };
    let index = match flag_or_environment(flags, "index", &environment.index) {
        Some(value) => value,
        None => return Err("missing --index or GEO_INDEX".to_owned()),
    };
    let bind = match flag_or_environment(flags, "bind", &environment.bind) {
        Some(value) => value,
        None => "127.0.0.1:8080".to_owned(),
    };
    Ok(ServerSettings { config, index, bind })
}

/// The number that a parameter writes, or else another.
pub open spec fn number_or(
    params: Map<Seq<char>, Seq<char>>,
    key: Seq<char>,
    max: nat,
    other: int,
) -> int {
    if params.contains_key(key) {
        match decimal::number(params[key], max) {
            Ok(n) => n as int,
            Err(_) => other,
        }
    } else {
        other
    }
}

fn parameter_or(params: &TextMap<String>, key: &str, max: u64, other: u64) -> (result: u64)
    requires
        params.wf(),
        other <= max,
    ensures
        result == number_or(params@, key@, max as nat, other as int),
        result <= max,
{
    match params.get(key) {
        Some(value) => match decimal::parse_number(value.as_str(), max) {
            Ok(n) => n,
            Err(_) => other,
        },
        None => other,
    }
}

/// The limit that the parameters ask for, or else the default.
fn limit_or(params: &TextMap<String>, other: usize) -> (result: usize)
    requires
        params.wf(),
    ensures
        result == number_or(params@, "limit"@, usize::MAX as nat, other as int),
{
    parameter_or(params, "limit", usize::MAX as u64, other as u64) as usize
}

/// The text of a parameter, or an empty text.
pub open spec fn text_or_empty(params: Map<Seq<char>, Seq<char>>, key: Seq<char>) -> Seq<char> {
    if params.contains_key(key) {
        params[key]
    } else {
        Seq::<char>::empty()
    }
}

fn parameter_text(params: &TextMap<String>, key: &str) -> (result: String)
    requires
        params.wf(),
    ensures
        result@ == text_or_empty(params@, key@),
{
    match params.get(key) {
        Some(value) => value.clone(),
        None => {
            let none = String::new();
            assert(none@ =~= Seq::<char>::empty());
            none
        },
    }
}

/// The numerals of the coordinates of a point, where the parameters have them.
#[derive(Clone, Debug)]
pub struct PointNumerals {
    pub latitude: Option<String>,
    pub longitude: Option<String>,
}

/// The numbers that the numerals of a point stand for, or why they stand for none. A number is used
/// only where the parameters have its numeral.
#[derive(Debug)]
pub struct PointNumbers {
    pub latitude: Result<Float64, String>,
    pub longitude: Result<Float64, String>,
}

/// The numerals of the focus of a search, where the parameters have them.
pub fn focus_numerals(params: &TextMap<String>) -> (result: PointNumerals)
    requires
        params.wf(),
    ensures
        result.latitude.deep_view() == config::value_of(params@, "focus_lat"@),
        result.longitude.deep_view() == config::value_of(params@, "focus_lon"@),
{
    PointNumerals {
        latitude: config::optional_value(params, "focus_lat"),
        longitude: config::optional_value(params, "focus_lon"),
    }
}

/// The numerals of the point of a reverse search, where the parameters have them.
pub fn point_numerals(params: &TextMap<String>) -> (result: PointNumerals)
    requires
        params.wf(),
    ensures
        result.latitude.deep_view() == config::value_of(params@, "lat"@),
        result.longitude.deep_view() == config::value_of(params@, "lon"@),
{
    PointNumerals {
        latitude: config::optional_value(params, "lat"),
        longitude: config::optional_value(params, "lon"),
    }
}

/// The focus of a search, where the parameters give both of its coordinates, or the first of the
/// coordinates that is no number.
pub open spec fn focus_of(params: Map<Seq<char>, Seq<char>>, numbers: PointNumbers) -> Result<
    Option<Point>,
    Seq<char>,
> {
    if params.contains_key("focus_lat"@) && params.contains_key("focus_lon"@) {
        match (record::outcome(numbers.latitude), record::outcome(numbers.longitude)) {
            (Err(message), _) => Err(message),
            (Ok(_), Err(message)) => Err(message),
            (Ok(latitude), Ok(longitude)) => Ok(Some(Point { latitude, longitude })),
        }
    } else {
        Ok(None)
    }
}

/// The forward search that the parameters ask for, in the country of the configuration.
pub fn search_query(params: &TextMap<String>, config: &CountryConfig, focus: &PointNumbers) -> (result:
    Result<ForwardQuery, String>)
    requires
        params.wf(),
    ensures
        match result {
            Ok(query) => {
                &&& query.text@ == if params@.contains_key("query"@) {
                    params@["query"@]
                } else {
                    text_or_empty(params@, "text"@)
                }
                &&& query.country_code.deep_view() == Some(config.country_code@)
                &&& focus_of(params@, *focus) == Ok::<Option<Point>, Seq<char>>(query.focus)
                &&& query.limit == number_or(
                    params@,
                    "limit"@,
                    usize::MAX as nat,
                    config.search.default_limit as int,
                )
            },
            Err(message) => focus_of(params@, *focus) == Err::<Option<Point>, Seq<char>>(message@),
        },
{
    let text = match params.get("query") {
        Some(value) => value.clone(),
        None => parameter_text(params, "text"),
    };
    let limit: usize = limit_or(params, config.search.default_limit);
    let point = match (params.get("focus_lat"), params.get("focus_lon")) {
        (Some(_), Some(_)) => {
            let latitude = match &focus.latitude {
                Ok(value) => *value,
                Err(message) => return Err(message.clone()),
            };
            let longitude = match &focus.longitude {
                Ok(value) => *value,
                Err(message) => return Err(message.clone()),
            };
            Some(Point { latitude, longitude })
        },
        _ => None,
    };
    Ok(ForwardQuery { text, country_code: Some(config.country_code.clone()), focus: point, limit })
}

/// The autocompletion that the parameters ask for, in the country of the configuration.
pub fn autocomplete_query(params: &TextMap<String>, config: &CountryConfig) -> (result:
    AutocompleteQuery)
    requires
        params.wf(),
    ensures
        result.text@ == text_or_empty(params@, "text"@),
        result.country_code.deep_view() == Some(config.country_code@),
        result.limit == number_or(
            params@,
            "limit"@,
            usize::MAX as nat,
            config.search.autocomplete_limit as int,
        ),
{
    AutocompleteQuery {
        text: parameter_text(params, "text"),
        country_code: Some(config.country_code.clone()),
        limit: limit_or(params, config.search.autocomplete_limit),
    }
}

/// The point of a reverse search, or the first thing that is wrong with its coordinates.
pub open spec fn point_of(params: Map<Seq<char>, Seq<char>>, numbers: PointNumbers) -> Result<
    Point,
    Seq<char>,
> {
    if !params.contains_key("lat"@) {
        Err("missing lat"@)
    } else {
        match record::outcome(numbers.latitude) {
            Err(message) => Err(message),
            Ok(latitude) => if !params.contains_key("lon"@) {
                Err("missing lon"@)
            } else {
                match record::outcome(numbers.longitude) {
                    Err(message) => Err(message),
                    Ok(longitude) => Ok(Point { latitude, longitude }),
                }
            },
        }
    }
}

/// The reverse search that the parameters ask for.
pub fn reverse_query(params: &TextMap<String>, config: &CountryConfig, point: &PointNumbers) -> (result:
    Result<ReverseQuery, String>)
    requires
        params.wf(),
    ensures
        match result {
            Ok(query) => {
                &&& point_of(params@, *point) == Ok::<Point, Seq<char>>(query.point)
                &&& query.limit == number_or(
                    params@,
                    "limit"@,
                    usize::MAX as nat,
                    config.search.default_limit as int,
                )
                &&& query.radius_meters == number_or(
                    params@,
                    "radius_meters"@,
                    u32::MAX as nat,
                    config.search.reverse_radius_meters as int,
                )
            },
            Err(message) => point_of(params@, *point) == Err::<Point, Seq<char>>(message@),
        },
{
    if params.get("lat").is_none() {
        return Err("missing lat".to_owned());
    }
    let latitude = match &point.latitude {
        Ok(value) => *value,
        Err(message) => return Err(message.clone()),
    };
    if params.get("lon").is_none() {
        return Err("missing lon".to_owned());
    }
    let longitude = match &point.longitude {
        Ok(value) => *value,
        Err(message) => return Err(message.clone()),
    };
    let limit: usize = limit_or(params, config.search.default_limit);
    let radius_meters: u32 = parameter_or(
        params,
        "radius_meters",
        u32::MAX as u64,
        config.search.reverse_radius_meters as u64,
    ) as u32;
    Ok(ReverseQuery { point: Point { latitude, longitude }, radius_meters, limit })
}

} // verus!
