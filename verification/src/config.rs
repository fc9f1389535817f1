//! Country configurations, and the plain key-value files that they are read from.
use vstd::prelude::*;

use crate::decimal;
use crate::float::Float64;
use crate::ordered::TextMap;
use crate::query::Bounds;
use crate::record;
use crate::text;
use crate::text::CharSet;

verus! {

/// What a country is searched by.
#[derive(Clone, Debug, PartialEq)]
pub struct CountryConfig {
    pub country_code: String,
    pub country_name: String,
    pub languages: Vec<String>,
    pub timezone: String,
    pub bounds: Bounds,
    pub search: SearchConfig,
}

/// The defaults of searches.
#[derive(Clone, Debug, PartialEq)]
pub struct SearchConfig {
    pub default_limit: usize,
    pub autocomplete_limit: usize,
    pub reverse_radius_meters: u32,
    pub preferred_layers: Vec<String>,
}

/// What a `CountryConfig` holds.
pub ghost struct ConfigView {
    pub country_code: Seq<char>,
    pub country_name: Seq<char>,
    pub languages: Seq<Seq<char>>,
    pub timezone: Seq<char>,
    pub bounds: Bounds,
    pub search: SearchView,
}

/// What a `SearchConfig` holds.
pub ghost struct SearchView {
    pub default_limit: int,
    pub autocomplete_limit: int,
    pub reverse_radius_meters: int,
    pub preferred_layers: Seq<Seq<char>>,
}

impl View for SearchConfig {
    type V = SearchView;

    open spec fn view(&self) -> SearchView {
        SearchView {
            default_limit: self.default_limit as int,
            autocomplete_limit: self.autocomplete_limit as int,
            reverse_radius_meters: self.reverse_radius_meters as int,
            preferred_layers: self.preferred_layers.deep_view(),
        }
    }
}

impl View for CountryConfig {
    type V = ConfigView;

    open spec fn view(&self) -> ConfigView {
        ConfigView {
            country_code: self.country_code@,
            country_name: self.country_name@,
            languages: self.languages.deep_view(),
            timezone: self.timezone@,
            bounds: self.bounds,
            search: self.search@,
        }
    }
}

/// What a line says: what precedes its first number sign, without white space at its ends.
pub open spec fn said(raw_line: Seq<char>) -> Seq<char> {
    text::trim(text::pieces(raw_line, CharSet::Only('#'))[0])
}

/// Whether a line opens a section.
pub open spec fn opens_section(line: Seq<char>) -> bool {
    line.len() > 0 && line[0] == '[' && line.last() == ']'
}

/// The key of a value, which the section that it stands in precedes.
pub open spec fn full_key(section: Seq<char>, key: Seq<char>) -> Seq<char> {
    if section.len() == 0 {
        text::trim(key)
    } else {
        section.push('.') + text::trim(key)
    }
}

/// The value that is written after an equals sign: without white space at its ends, and without
/// quotation marks at the ends of the rest.
pub open spec fn plain_value(value: Seq<char>) -> Seq<char> {
    text::trim_set(text::trim(value), CharSet::Only('"'))
}

/// The section that is open after the lines, and the values that they give. Of values with the
/// same key the last counts.
pub open spec fn settings(lines: Seq<Seq<char>>) -> (Seq<char>, Map<Seq<char>, Seq<char>>)
    decreases lines.len(),
{
    if lines.len() == 0 {
        (Seq::<char>::empty(), Map::<Seq<char>, Seq<char>>::empty())
    } else {
        let (section, values) = settings(lines.drop_last());
        let line = said(lines.last());
        if opens_section(line) {
            (text::trim_set(line, CharSet::Either('[', ']')), values)
        } else {
            match text::cut_at(line, '=') {
                Some((key, value)) => (
                    section,
                    values.insert(full_key(section, key), plain_value(value)),
                ),
                None => (section, values),
            }
        }
    }
}

/// What a line says.
fn said_in(raw_line: &str) -> (result: String)
    ensures
        result@ == said(raw_line@),
{
    proof {
        text::lemma_pieces_not_empty(raw_line@, CharSet::Only('#'));
    }
    let parts = text::split(raw_line, CharSet::Only('#'));
    assert(parts@[0]@ == parts.deep_view()[0]);
    text::trimmed(parts[0].as_str())
}

fn is_section(line: &str) -> (result: bool)
    ensures
        result == opens_section(line@),
{
    let chars = text::chars_of(line);
    chars.len() > 0 && chars[0] == '[' && chars[chars.len() - 1] == ']'
}

fn key_in_section(section: &str, key: &str) -> (result: String)
    ensures
        result@ == full_key(section@, key@),
{
    let key = text::trimmed(key);
    if section.is_empty() {
        key
    } else {
        let mut result = section.to_owned();
        result.push('.');
        result.append(key.as_str());
        result
    }
}

/// The values of a configuration file by their keys.
pub fn parse_simple_toml(text: &str) -> (result: TextMap<String>)
    ensures
        result.wf(),
        result@ == settings(text::lines(text@)).1,
{
    let lines = text::split_lines(text);
    let ghost all = lines.deep_view();
    let mut section = String::new();
    let mut values: TextMap<String> = TextMap::new();
    let mut i: usize = 0;
    assert(section@ =~= Seq::<char>::empty());
    while i < lines.len()
        invariant
            i <= lines@.len(),
            all == lines.deep_view(),
            values.wf(),
            (section@, values@) == settings(all.take(i as int)),
        decreases lines@.len() - i,
    {
        assert(all.take(i + 1).drop_last() =~= all.take(i as int));
        assert(all.take(i + 1).last() == lines@[i as int]@);
        let line = said_in(lines[i].as_str());
        if is_section(line.as_str()) {
            section = text::trimmed_set(line.as_str(), CharSet::Either('[', ']'));
        } else {
            match text::split_once(line.as_str(), '=') {
                Some((key, value)) => {
                    let key = key_in_section(section.as_str(), key.as_str());
                    let value = text::trimmed(value.as_str());
                    let value = text::trimmed_set(value.as_str(), CharSet::Only('"'));
                    values.insert(key, value);
                },
                None => {},
            }
        }
        i = i + 1;
    }
    assert(all.take(i as int) =~= all);
    values
}

/// What is said of a key that is not there.
pub open spec fn missing_key(key: Seq<char>) -> Seq<char> {
    "missing config key "@ + key
}

/// The value of a key that has to be there.
pub fn required_value(values: &TextMap<String>, key: &str) -> (result: Result<String, String>)
    requires
        values.wf(),
    ensures
        match result {
            Ok(value) => values@.contains_key(key@) && value@ == values@[key@],
            Err(message) => !values@.contains_key(key@) && message@ == missing_key(key@),
        },
{
    match values.get(key) {
        Some(value) => Ok(value.clone()),
        None => {
            let mut message = "missing config key ".to_owned();
            message.append(key);
            Err(message)
        },
    }
}

/// The items of a list that brackets may enclose and commas divide; empty ones are left out.
pub open spec fn items(value: Seq<char>) -> Seq<Seq<char>> {
    text::pieces(text::trim_set(value, CharSet::Either('[', ']')), CharSet::Only(',')).map_values(
        |item: Seq<char>| plain_value(item),
    ).filter(text::filled())
}

/// The items of a list that brackets may enclose and commas divide; empty ones are left out.
pub fn parse_array(value: &str) -> (result: Vec<String>)
    ensures
        result.deep_view() == items(value@),
{
    let inner = text::trimmed_set(value, CharSet::Either('[', ']'));
    let parts = text::split(inner.as_str(), CharSet::Only(','));
    let ghost all = parts.deep_view();
    let mut plain: Vec<String> = Vec::new();
    let mut i: usize = 0;
    while i < parts.len()
        invariant
            i <= parts@.len(),
            all == parts.deep_view(),
            plain.deep_view() == all.take(i as int).map_values(
                |item: Seq<char>| plain_value(item),
            ),
        decreases parts@.len() - i,
    {
        let ghost before = plain.deep_view();
        let item = text::trimmed(parts[i].as_str());
        let item = text::trimmed_set(item.as_str(), CharSet::Only('"'));
        assert(item@ == plain_value(all[i as int]));
        plain.push(item);
        assert(plain.deep_view() =~= before.push(item@));
        assert(all.take(i + 1) =~= all.take(i as int).push(all[i as int]));
        i = i + 1;
    }
    assert(all.take(i as int) =~= all);
    text::keep_filled(&plain)
}

/// The whole number of a key, or what is wrong with it.
pub open spec fn whole(values: Map<Seq<char>, Seq<char>>, key: Seq<char>, max: nat) -> Result<
    nat,
    Seq<char>,
> {
    if !values.contains_key(key) {
        Err(missing_key(key))
    } else {
        match decimal::number(values[key], max) {
            Ok(n) => Ok(n),
            Err(fault) => Err(fault.text()),
        }
    }
}

/// The whole number of a key, as far as it is at most `max`.
fn parse_whole(values: &TextMap<String>, key: &str, max: u64) -> (result: Result<u64, String>)
    requires
        values.wf(),
    ensures
        match result {
            Ok(n) => whole(values@, key@, max as nat) == Ok::<nat, Seq<char>>(n as nat) && n <= max,
            Err(message) => whole(values@, key@, max as nat) == Err::<nat, Seq<char>>(message@),
        },
{
    let value = match required_value(values, key) {
        Ok(value) => value,
        Err(message) => return Err(message),
    };
    match decimal::parse_number(value.as_str(), max) {
        Ok(n) => Ok(n),
        Err(fault) => Err(fault.message()),
    }
}

/// The number of a key, as a machine word.
pub fn parse_usize(values: &TextMap<String>, key: &str) -> (result: Result<usize, String>)
    requires
        values.wf(),
    ensures
        match result {
            Ok(n) => whole(values@, key@, usize::MAX as nat) == Ok::<nat, Seq<char>>(n as nat),
            Err(message) => whole(values@, key@, usize::MAX as nat) == Err::<nat, Seq<char>>(
                message@,
            ),
        },
{
    match parse_whole(values, key, usize::MAX as u64) {
        Ok(n) => Ok(n as usize),
        Err(message) => Err(message),
    }
}

/// The number of a key, in 32 bits.
pub fn parse_u32(values: &TextMap<String>, key: &str) -> (result: Result<u32, String>)
    requires
        values.wf(),
    ensures
        match result {
            Ok(n) => whole(values@, key@, u32::MAX as nat) == Ok::<nat, Seq<char>>(n as nat),
            Err(message) => whole(values@, key@, u32::MAX as nat) == Err::<nat, Seq<char>>(message@),
        },
{
    match parse_whole(values, key, u32::MAX as u64) {
        Ok(n) => Ok(n as u32),
        Err(message) => Err(message),
    }
}

/// The numerals of the bounds of a country, where a configuration has them.
#[derive(Clone, Debug)]
pub struct BoundNumerals {
    pub min_lon: Option<String>,
    pub min_lat: Option<String>,
    pub max_lon: Option<String>,
    pub max_lat: Option<String>,
}

/// The numbers that the numerals of the bounds stand for, or why they stand for none. A number is
/// used only where the configuration has its numeral.
#[derive(Debug)]
pub struct BoundNumbers {
    pub min_lon: Result<Float64, String>,
    pub min_lat: Result<Float64, String>,
    pub max_lon: Result<Float64, String>,
    pub max_lat: Result<Float64, String>,
}

/// The value of a key, where there is one.
pub open spec fn value_of(values: Map<Seq<char>, Seq<char>>, key: Seq<char>) -> Option<Seq<char>> {
    if values.contains_key(key) {
        Some(values[key])
    } else {
        None
    }
}

/// A copy of the value of a key, where there is one.
pub fn optional_value(values: &TextMap<String>, key: &str) -> (result: Option<String>)
    requires
        values.wf(),
    ensures
        result.deep_view() == value_of(values@, key@),
{
    match values.get(key) {
        Some(value) => Some(value.clone()),
        None => None,
    }
}

/// The numerals of the bounds, where the values have them.
pub fn bound_numerals(values: &TextMap<String>) -> (result: BoundNumerals)
    requires
        values.wf(),
    ensures
        result.min_lon.deep_view() == value_of(values@, "bounds.min_lon"@),
        result.min_lat.deep_view() == value_of(values@, "bounds.min_lat"@),
        result.max_lon.deep_view() == value_of(values@, "bounds.max_lon"@),
        result.max_lat.deep_view() == value_of(values@, "bounds.max_lat"@),
{
    BoundNumerals {
        min_lon: optional_value(values, "bounds.min_lon"),
        min_lat: optional_value(values, "bounds.min_lat"),
        max_lon: optional_value(values, "bounds.max_lon"),
        max_lat: optional_value(values, "bounds.max_lat"),
    }
}

/// The text of a key, or what is said of its lack.
pub open spec fn wanted(values: Map<Seq<char>, Seq<char>>, key: Seq<char>) -> Result<
    Seq<char>,
    Seq<char>,
> {
    if values.contains_key(key) {
        Ok(values[key])
    } else {
        Err(missing_key(key))
    }
}

/// The number of a key, or what is wrong with it: its lack, or else its numeral.
pub open spec fn measured(
    values: Map<Seq<char>, Seq<char>>,
    key: Seq<char>,
    number: Result<Float64, Seq<char>>,
) -> Result<Float64, Seq<char>> {
    if values.contains_key(key) {
        number
    } else {
        Err(missing_key(key))
    }
}

/// The number of a key, given the number that its numeral stands for.
fn parse_f64(values: &TextMap<String>, key: &str, number: &Result<Float64, String>) -> (result: Result<
    Float64,
    String,
>)
    requires
        values.wf(),
    ensures
        record::outcome(result) == measured(values@, key@, record::outcome(*number)),
{
    match required_value(values, key) {
        Ok(_) => match number {
            Ok(value) => Ok(*value),
            Err(message) => Err(message.clone()),
        },
        Err(message) => Err(message),
    }
}

/// The configuration that the values and the numbers of their bounds make, or the first thing that
/// is wrong with them.
pub open spec fn configured(
    values: Map<Seq<char>, Seq<char>>,
    bounds: BoundNumbers,
) -> Result<ConfigView, Seq<char>> {
    let country_code = wanted(values, "country_code"@);
    let country_name = wanted(values, "country_name"@);
    let languages = wanted(values, "languages"@);
    let timezone = wanted(values, "timezone"@);
    let min_lon = measured(values, "bounds.min_lon"@, record::outcome(bounds.min_lon));
    let min_lat = measured(values, "bounds.min_lat"@, record::outcome(bounds.min_lat));
    let max_lon = measured(values, "bounds.max_lon"@, record::outcome(bounds.max_lon));
    let max_lat = measured(values, "bounds.max_lat"@, record::outcome(bounds.max_lat));
    let default_limit = whole(values, "search.default_limit"@, usize::MAX as nat);
    let autocomplete_limit = whole(values, "search.autocomplete_limit"@, usize::MAX as nat);
    let radius = whole(values, "search.reverse_radius_meters"@, u32::MAX as nat);
    let layers = wanted(values, "search.preferred_layers"@);
    if country_code is Err {
        Err(country_code->Err_0)
    } else if country_name is Err {
        Err(country_name->Err_0)
    } else if languages is Err {
        Err(languages->Err_0)
    } else if timezone is Err {
        Err(timezone->Err_0)
    } else if min_lon is Err {
        Err(min_lon->Err_0)
    } else if min_lat is Err {
        Err(min_lat->Err_0)
    } else if max_lon is Err {
        Err(max_lon->Err_0)
    } else if max_lat is Err {
        Err(max_lat->Err_0)
    } else if default_limit is Err {
        Err(default_limit->Err_0)
    } else if autocomplete_limit is Err {
        Err(autocomplete_limit->Err_0)
    } else if radius is Err {
        Err(radius->Err_0)
    } else if layers is Err {
        Err(layers->Err_0)
    } else {
        Ok(
            ConfigView {
                country_code: country_code->Ok_0,
                country_name: country_name->Ok_0,
                languages: items(languages->Ok_0),
                timezone: timezone->Ok_0,
                bounds: Bounds {
                    min_lon: min_lon->Ok_0,
                    min_lat: min_lat->Ok_0,
                    max_lon: max_lon->Ok_0,
                    max_lat: max_lat->Ok_0,
                },
                search: SearchView {
                    default_limit: default_limit->Ok_0 as int,
                    autocomplete_limit: autocomplete_limit->Ok_0 as int,
                    reverse_radius_meters: radius->Ok_0 as int,
                    preferred_layers: items(layers->Ok_0),
                },
            },
        )
    }
}

/// The configuration that the values and the numbers of their bounds make.
pub fn read_country_config(values: &TextMap<String>, bounds: &BoundNumbers) -> (result: Result<
    CountryConfig,
    String,
>)
    requires
        values.wf(),
    ensures
        match result {
            Ok(config) => configured(values@, *bounds) == Ok::<ConfigView, Seq<char>>(config@),
            Err(message) => configured(values@, *bounds) == Err::<ConfigView, Seq<char>>(message@),
        },
{
    let country_code = match required_value(values, "country_code") {
        Ok(value) => value,
        Err(message) => return Err(message),
    };
    let country_name = match required_value(values, "country_name") {
        Ok(value) => value,
        Err(message) => return Err(message),
    };
    let languages = match required_value(values, "languages") {
        Ok(value) => parse_array(value.as_str()),
        Err(message) => return Err(message),
    };
    let timezone = match required_value(values, "timezone") {
        Ok(value) => value,
        Err(message) => return Err(message),
    };
    let min_lon = match parse_f64(values, "bounds.min_lon", &bounds.min_lon) {
        Ok(value) => value,
        Err(message) => return Err(message),
    };
    let min_lat = match parse_f64(values, "bounds.min_lat", &bounds.min_lat) {
        Ok(value) => value,
        Err(message) => return Err(message),
    };
    let max_lon = match parse_f64(values, "bounds.max_lon", &bounds.max_lon) {
        Ok(value) => value,
        Err(message) => return Err(message),
    };
    let max_lat = match parse_f64(values, "bounds.max_lat", &bounds.max_lat) {
        Ok(value) => value,
        Err(message) => return Err(message),
    };
    let default_limit: usize = match parse_usize(values, "search.default_limit") {
        Ok(value) => value,
        Err(message) => return Err(message),
    };
    let autocomplete_limit: usize = match parse_usize(values, "search.autocomplete_limit") {
        Ok(value) => value,
        Err(message) => return Err(message),
    };
    let reverse_radius_meters: u32 = match parse_u32(values, "search.reverse_radius_meters") {
        Ok(value) => value,
        Err(message) => return Err(message),
    };
    let preferred_layers = match required_value(values, "search.preferred_layers") {
        Ok(value) => parse_array(value.as_str()),
        Err(message) => return Err(message),
    };
    Ok(
        CountryConfig {
            country_code,
            country_name,
            languages,
            timezone,
            bounds: Bounds { min_lon, min_lat, max_lon, max_lat },
            search: SearchConfig {
                default_limit,
                autocomplete_limit,
                reverse_radius_meters,
                preferred_layers,
            },
        },
    )
}

/// A line that is blank before its first number sign sets nothing.
pub proof fn law_comments_set_nothing(lines: Seq<Seq<char>>, line: Seq<char>)
    requires
        said(line).len() == 0,
    ensures
        settings(lines.push(line)) == settings(lines),
{
    assert(lines.push(line).drop_last() =~= lines);
    assert(text::find(said(line), '=') == 0);
}

/// A later line with the same key in the same section counts, and the values of other keys stay.
pub proof fn law_last_setting_counts(
    lines: Seq<Seq<char>>,
    line: Seq<char>,
    key: Seq<char>,
    value: Seq<char>,
)
    requires
        !opens_section(said(line)),
        text::cut_at(said(line), '=') == Some((key, value)),
    ensures
        settings(lines.push(line)).0 == settings(lines).0,
        settings(lines.push(line)).1 == settings(lines).1.insert(
            full_key(settings(lines).0, key),
            plain_value(value),
        ),
{
    assert(lines.push(line).drop_last() =~= lines);
}

} // verus!
