//! Comma-separated values, and the documents that their rows describe.
use vstd::prelude::*;

use crate::config::{ConfigView, CountryConfig};
use crate::document;
use crate::document::{AddressParts, AddressView, AdminHierarchy, DocumentView, GeoDocument, HierarchyView};
use crate::float::{Float32, Float64};
use crate::ordered::TextMap;
use crate::record;
use crate::record::{DocumentNumbers, NumbersView};
use crate::text;
use crate::text::CharSet;

verus! {

/// The values of the rest of a line, when `current` has been read of a value and `quoted` tells
/// whether quotation marks are open. In quotation marks a comma divides nothing, and two
/// quotation marks stand for one.
pub open spec fn values_after(s: Seq<char>, quoted: bool, current: Seq<char>) -> Seq<Seq<char>>
    decreases s.len(),
{
    if s.len() == 0 {
        seq![text::trim(current)]
    } else if s[0] == '"' && quoted && s.len() > 1 && s[1] == '"' {
        values_after(s.skip(2), quoted, current.push('"'))
    } else if s[0] == '"' {
        values_after(s.skip(1), !quoted, current)
    } else if s[0] == ',' && !quoted {
        seq![text::trim(current)] + values_after(s.skip(1), quoted, Seq::<char>::empty())
    } else {
        values_after(s.skip(1), quoted, current.push(s[0]))
    }
}

/// The values of a line, without white space at their ends.
pub open spec fn values_of(line: Seq<char>) -> Seq<Seq<char>> {
    values_after(line, false, Seq::<char>::empty())
}

/// The values of a line.
pub fn parse_csv_line(line: &str) -> (result: Vec<String>)
    ensures
        result.deep_view() == values_of(line@),
{
    let chars = text::chars_of(line);
    let mut values: Vec<String> = Vec::new();
    let mut current = String::new();
    let mut in_quotes = false;
    let mut i: usize = 0;
    assert(chars@.skip(0) =~= chars@);
    assert(values.deep_view() + values_of(line@) =~= values_of(line@));
    assert(current@ =~= Seq::<char>::empty());
    while i < chars.len()
        invariant
            i <= chars@.len(),
            values.deep_view() + values_after(chars@.skip(i as int), in_quotes, current@)
                == values_of(line@),
        decreases chars@.len() - i,
    {
        let ghost rest = chars@.skip(i as int);
        let ghost before = values.deep_view();
        let c = chars[i];
        assert(rest[0] == c);
        assert(rest.skip(1) =~= chars@.skip(i + 1));
        if c == '"' && in_quotes && i + 1 < chars.len() && chars[i + 1] == '"' {
            assert(rest[1] == '"');
            assert(rest.skip(2) =~= chars@.skip(i + 2));
            current.push('"');
            i = i + 2;
        } else {
            if c == '"' {
                assert(rest.len() > 1 ==> rest[1] == chars@[i + 1]);
                in_quotes = !in_quotes;
            } else if c == ',' && !in_quotes {
                let value = text::trimmed(current.as_str());
                values.push(value);
                current = String::new();
                assert(values.deep_view() =~= before.push(value@));
                assert(current@ =~= Seq::<char>::empty());
                let ghost tail = values_after(rest.skip(1), in_quotes, current@);
                assert(before.push(value@) + tail =~= before + (seq![value@] + tail));
            } else {
                current.push(c);
            }
            i = i + 1;
        }
    }
    let ghost before = values.deep_view();
    let value = text::trimmed(current.as_str());
    values.push(value);
    assert(values.deep_view() =~= before + seq![value@]);
    values
}

/// The text with every quotation mark doubled.
pub open spec fn doubled(s: Seq<char>) -> Seq<char>
    decreases s.len(),
{
    if s.len() == 0 {
        Seq::<char>::empty()
    } else if s[0] == '"' {
        seq!['"', '"'] + doubled(s.drop_first())
    } else {
        seq![s[0]] + doubled(s.drop_first())
    }
}

/// The text in quotation marks.
pub open spec fn quoted(s: Seq<char>) -> Seq<char> {
    seq!['"'] + doubled(s) + seq!['"']
}

/// The line that writes the values in quotation marks, with commas between them.
pub open spec fn quoted_line(values: Seq<Seq<char>>) -> Seq<char>
    decreases values.len(),
{
    if values.len() == 0 {
        Seq::<char>::empty()
    } else if values.len() == 1 {
        quoted(values[0])
    } else {
        quoted(values[0]) + seq![','] + quoted_line(values.drop_first())
    }
}

/// Text in quotation marks is read as it was before its quotation marks were doubled.
pub proof fn lemma_doubled(v: Seq<char>, t: Seq<char>, current: Seq<char>)
    requires
        t.len() > 0 ==> t[0] != '"',
    ensures
        values_after(doubled(v) + (seq!['"'] + t), true, current) == values_after(
            t,
            false,
            current + v,
        ),
    decreases v.len(),
{
    let end = seq!['"'] + t;
    let s = doubled(v) + end;
    if v.len() == 0 {
        assert(s =~= end);
        assert(end.skip(1) =~= t);
        assert(current + v =~= current);
    } else {
        let rest = v.drop_first();
        if v[0] == '"' {
            assert(s[0] == '"' && s[1] == '"');
            assert(s.skip(2) =~= doubled(rest) + end);
        } else {
            assert(s[0] == v[0]);
            assert(s.skip(1) =~= doubled(rest) + end);
        }
        lemma_doubled(rest, t, current.push(v[0]));
        assert(current.push(v[0]) + rest =~= current + v);
    }
}

/// Values that are written in quotation marks are read back, without the white space at their
/// ends, whatever commas and quotation marks they hold.
pub proof fn law_quoted_values_read_back(values: Seq<Seq<char>>)
    requires
        values.len() > 0,
    ensures
        values_of(quoted_line(values)) == values.map_values(|value: Seq<char>| text::trim(value)),
    decreases values.len(),
{
    let none = Seq::<char>::empty();
    let first = values[0];
    let line = quoted_line(values);
    let t = if values.len() == 1 {
        none
    } else {
        seq![','] + quoted_line(values.drop_first())
    };
    assert(line =~= seq!['"'] + (doubled(first) + (seq!['"'] + t)));
    assert(line.skip(1) =~= doubled(first) + (seq!['"'] + t));
    lemma_doubled(first, t, none);
    assert(none + first =~= first);
    assert(values_of(line) == values_after(t, false, first));
    let trim = |value: Seq<char>| text::trim(value);
    if values.len() == 1 {
        assert(values.map_values(trim) =~= seq![text::trim(first)]);
    } else {
        let rest = values.drop_first();
        law_quoted_values_read_back(rest);
        assert(t.skip(1) =~= quoted_line(rest));
        assert(values.map_values(trim) =~= seq![text::trim(first)] + rest.map_values(trim));
    }
}

/// The row of the first `n` headers and values; of headers that are the same the last counts.
pub open spec fn row_of(headers: Seq<Seq<char>>, values: Seq<Seq<char>>, n: nat) -> Map<
    Seq<char>,
    Seq<char>,
>
    decreases n,
{
    if n == 0 {
        Map::<Seq<char>, Seq<char>>::empty()
    } else {
        row_of(headers, values, (n - 1) as nat).insert(headers[n - 1], values[n - 1])
    }
}

/// The length of the shorter list.
pub open spec fn shorter(a: Seq<Seq<char>>, b: Seq<Seq<char>>) -> nat {
    if a.len() < b.len() {
        a.len()
    } else {
        b.len()
    }
}

/// The row of a line: its values by the headers that they stand under. Values without a header and
/// headers without a value are left out.
pub open spec fn row_of_line(headers: Seq<Seq<char>>, line: Seq<char>) -> Map<
    Seq<char>,
    Seq<char>,
> {
    row_of(headers, values_of(line), shorter(headers, values_of(line)))
}

/// The values of a line by the headers that they stand under.
pub fn csv_row(headers: &Vec<String>, line: &str) -> (result: TextMap<String>)
    ensures
        result.wf(),
        result@ == row_of_line(headers.deep_view(), line@),
{
    let values = parse_csv_line(line);
    let ghost names = headers.deep_view();
    let ghost cells = values.deep_view();
    let mut row: TextMap<String> = TextMap::new();
    let mut i: usize = 0;
    while i < headers.len() && i < values.len()
        invariant
            i <= shorter(names, cells),
            names == headers.deep_view(),
            cells == values.deep_view(),
            row.wf(),
            row@ == row_of(names, cells, i as nat),
        decreases headers@.len() - i,
    {
        row.insert(headers[i].clone(), values[i].clone());
        i = i + 1;
    }
    row
}

/// The value of a column, where the row has it and it is not blank.
pub open spec fn filled_column(row: Map<Seq<char>, Seq<char>>, key: Seq<char>) -> Option<
    Seq<char>,
> {
    if row.contains_key(key) && text::trim(row[key]).len() > 0 {
        Some(row[key])
    } else {
        None
    }
}

/// The value of a column, where the row has it and it is not blank.
pub fn optional_row(row: &TextMap<String>, key: &str) -> (result: Option<String>)
    requires
        row.wf(),
    ensures
        result.deep_view() == filled_column(row@, key@),
{
    match row.get(key) {
        Some(value) => {
            let trimmed = text::trimmed(value.as_str());
            if trimmed.as_str().is_empty() {
                None
            } else {
                Some(value.clone())
            }
        },
        None => None,
    }
}

/// What is said of a column that has no value.
pub open spec fn missing_column(key: Seq<char>) -> Seq<char> {
    "missing required CSV column "@ + key
}

/// The value of a column that has to be there.
pub fn required_row(row: &TextMap<String>, key: &str) -> (result: Result<String, String>)
    requires
        row.wf(),
    ensures
        match result {
            Ok(value) => filled_column(row@, key@) == Some(value@),
            Err(message) => filled_column(row@, key@) is None && message@ == missing_column(key@),
        },
{
    match optional_row(row, key) {
        Some(value) => Ok(value),
        None => {
            let mut message = "missing required CSV column ".to_owned();
            message.append(key);
            Err(message)
        },
    }
}

/// The value of a column, or another text where it has none.
pub open spec fn column_or(
    row: Map<Seq<char>, Seq<char>>,
    key: Seq<char>,
    other: Seq<char>,
) -> Seq<char> {
    match filled_column(row, key) {
        Some(value) => value,
        None => other,
    }
}

fn row_or(row: &TextMap<String>, key: &str, other: &str) -> (result: String)
    requires
        row.wf(),
    ensures
        result@ == column_or(row@, key@, other@),
{
    match optional_row(row, key) {
        Some(value) => value,
        None => other.to_owned(),
    }
}

/// The numerals of a row, where it has them.
#[derive(Clone, Debug)]
pub struct RowNumerals {
    pub lat: Option<String>,
    pub lon: Option<String>,
    pub popularity: Option<String>,
}

/// The numerals of a row, where it has them.
pub fn row_numerals(row: &TextMap<String>) -> (result: RowNumerals)
    requires
        row.wf(),
    ensures
        result.lat.deep_view() == filled_column(row@, "lat"@),
        result.lon.deep_view() == filled_column(row@, "lon"@),
        result.popularity.deep_view() == filled_column(row@, "popularity"@),
{
    RowNumerals {
        lat: optional_row(row, "lat"),
        lon: optional_row(row, "lon"),
        popularity: optional_row(row, "popularity"),
    }
}

/// The document that a row describes, before it is given a label.
pub open spec fn described(
    row: Map<Seq<char>, Seq<char>>,
    config: ConfigView,
    latitude: Float64,
    longitude: Float64,
    popularity: Float32,
) -> DocumentView {
    DocumentView {
        id: filled_column(row, "id"@)->0,
        source: column_or(row, "source"@, "csv"@),
        layer: column_or(row, "layer"@, "venue"@),
        name: filled_column(row, "name"@)->0,
        label: column_or(row, "label"@, Seq::<char>::empty()),
        country_code: config.country_code,
        latitude,
        longitude,
        admin_hierarchy: HierarchyView {
            country: Some(column_or(row, "country"@, config.country_name)),
            region: filled_column(row, "region"@),
            county: filled_column(row, "county"@),
            locality: filled_column(row, "locality"@),
            neighbourhood: filled_column(row, "neighbourhood"@),
        },
        address: AddressView {
            house_number: filled_column(row, "house_number"@),
            street: filled_column(row, "street"@),
            postal_code: filled_column(row, "postal_code"@),
        },
        aliases: document::shown(
            text::pieces(
                column_or(row, "aliases"@, Seq::<char>::empty()),
                CharSet::Only('|'),
            ),
        ),
        popularity,
    }
}

/// The popularity of a row: what its numeral stands for, or zero where it has none that stands for
/// a number.
pub open spec fn popularity_of(
    row: Map<Seq<char>, Seq<char>>,
    number: Result<Float32, Seq<char>>,
) -> Float32 {
    if filled_column(row, "popularity"@) is Some && number is Ok {
        number->Ok_0
    } else {
        Float32 { bits: 0 }
    }
}

/// The document of a row, given the numbers that its numerals stand for, or the first thing that is
/// wrong with the row.
pub open spec fn row_document(
    row: Map<Seq<char>, Seq<char>>,
    config: ConfigView,
    numbers: NumbersView,
) -> Result<DocumentView, Seq<char>> {
    if filled_column(row, "id"@) is None {
        Err(missing_column("id"@))
    } else if filled_column(row, "name"@) is None {
        Err(missing_column("name"@))
    } else if filled_column(row, "lat"@) is None {
        Err(missing_column("lat"@))
    } else if numbers.latitude is Err {
        Err(numbers.latitude->Err_0)
    } else if filled_column(row, "lon"@) is None {
        Err(missing_column("lon"@))
    } else if numbers.longitude is Err {
        Err(numbers.longitude->Err_0)
    } else {
        Ok(
            described(
                row,
                config,
                numbers.latitude->Ok_0,
                numbers.longitude->Ok_0,
                popularity_of(row, numbers.popularity),
            ).labelled(),
        )
    }
}

/// The aliases that bars divide, trimmed, without those that are blank.
fn aliases_in(text: &str) -> (result: Vec<String>)
    ensures
        result.deep_view() == document::shown(text::pieces(text@, CharSet::Only('|'))),
{
    let parts = text::split(text, CharSet::Only('|'));
    let ghost all = parts.deep_view();
    let mut aliases: Vec<String> = Vec::new();
    let mut i: usize = 0;
    proof {
        document::lemma_shown_empty();
        assert(all.take(0) =~= Seq::<Seq<char>>::empty());
    }
    while i < parts.len()
        invariant
            i <= parts@.len(),
            all == parts.deep_view(),
            aliases.deep_view() == document::shown(all.take(i as int)),
        decreases parts@.len() - i,
    {
        document::push_non_empty(&mut aliases, parts[i].as_str());
        proof {
            document::lemma_shown_add(all.take(i as int), seq![all[i as int]]);
            assert(all.take(i + 1) =~= all.take(i as int) + seq![all[i as int]]);
        }
        i = i + 1;
    }
    assert(all.take(i as int) =~= all);
    aliases
}

/// The document of a row, given the numbers that its numerals stand for.
pub fn csv_row_to_document(
    row: &TextMap<String>,
    config: &CountryConfig,
    numbers: &DocumentNumbers,
) -> (result: Result<GeoDocument, String>)
    requires
        row.wf(),
    ensures
        match result {
            Ok(document) => row_document(row@, config@, numbers@) == Ok::<DocumentView, Seq<char>>(
                document@,
            ),
            Err(message) => row_document(row@, config@, numbers@) == Err::<DocumentView, Seq<char>>(
                message@,
            ),
        },
{
    let id = match required_row(row, "id") {
        Ok(value) => value,
        Err(message) => return Err(message),
    };
    let name = match required_row(row, "name") {
        Ok(value) => value,
        Err(message) => return Err(message),
    };
    match required_row(row, "lat") {
        Ok(_) => {},
        Err(message) => return Err(message),
    }
    let latitude = match &numbers.latitude {
        Ok(value) => *value,
        Err(message) => return Err(message.clone()),
    };
    match required_row(row, "lon") {
        Ok(_) => {},
        Err(message) => return Err(message),
    }
    let longitude = match &numbers.longitude {
        Ok(value) => *value,
        Err(message) => return Err(message.clone()),
    };
    let popularity = match (optional_row(row, "popularity"), &numbers.popularity) {
        (Some(_), Ok(value)) => *value,
        _ => Float32 { bits: 0 },
    };
    let listed = row_or(row, "aliases", "");
    let mut document = GeoDocument {
        id,
        source: row_or(row, "source", "csv"),
        layer: row_or(row, "layer", "venue"),
        name,
        label: row_or(row, "label", ""),
        country_code: config.country_code.clone(),
        latitude,
        longitude,
        admin_hierarchy: AdminHierarchy {
            country: Some(row_or(row, "country", config.country_name.as_str())),
            region: optional_row(row, "region"),
            county: optional_row(row, "county"),
            locality: optional_row(row, "locality"),
            neighbourhood: optional_row(row, "neighbourhood"),
        },
        address: AddressParts {
            house_number: optional_row(row, "house_number"),
            street: optional_row(row, "street"),
            postal_code: optional_row(row, "postal_code"),
        },
        aliases: aliases_in(listed.as_str()),
        popularity,
    };
    proof {
        reveal_strlit("");
        assert(""@ =~= Seq::<char>::empty());
        assert(document@ == described(row@, config@, latitude, longitude, popularity));
    }
    document.ensure_label();
    Ok(document)
}

/// Shown pieces have characters, and none at which the text was cut.
proof fn lemma_shown_pieces(s: Seq<char>, set: CharSet)
    ensures
        forall|i: int|
            0 <= i < document::shown(text::pieces(s, set)).len() ==> (#[trigger] document::shown(
                text::pieces(s, set),
            )[i]).len() > 0 && text::free_of(document::shown(text::pieces(s, set))[i], set)
                && !text::is_space(document::shown(text::pieces(s, set))[i].last()),
{
    let all = text::pieces(s, set);
    let trims = all.map_values(|value: Seq<char>| text::trim(value));
    let kept = document::shown(all);
    text::lemma_pieces_free(s, set);
    assert forall|i: int| 0 <= i < kept.len() implies (#[trigger] kept[i]).len() > 0
        && text::free_of(kept[i], set) && !text::is_space(kept[i].last()) by {
        trims.lemma_filter_pred(text::filled(), i);
        assert(kept.contains(kept[i]));
        trims.lemma_filter_contains_rev(text::filled(), kept[i]);
        assert(trims.contains(kept[i]));
        let k = choose|k: int| 0 <= k < trims.len() && trims[k] == kept[i];
        assert(text::free_of(all[k], set));
        text::lemma_trim_free(all[k], CharSet::Space, set);
        text::lemma_trim_free(text::trim_start(all[k], CharSet::Space), CharSet::Space, set);
        text::lemma_trim_end_last(text::trim_start(all[k], CharSet::Space), CharSet::Space);
    }
}

/// The aliases of the document of a row can be told apart by bars, and none ends in a carriage
/// return.
pub proof fn lemma_row_aliases(
    row: Map<Seq<char>, Seq<char>>,
    config: ConfigView,
    numbers: NumbersView,
)
    requires
        row_document(row, config, numbers) is Ok,
    ensures
        ({
            let aliases = row_document(row, config, numbers)->Ok_0.aliases;
            &&& record::listable(aliases)
            &&& aliases.len() > 0 ==> aliases.last().last() != '\r'
        }),
{
    lemma_shown_pieces(
        column_or(row, "aliases"@, Seq::<char>::empty()),
        CharSet::Only('|'),
    );
    let aliases = row_document(row, config, numbers)->Ok_0.aliases;
    if aliases.len() > 0 {
        assert(!text::is_space(aliases[aliases.len() - 1].last()));
    }
}

/// The document of a row has a label, and its own row in the file of documents keeps all of it,
/// where the country has a name.
pub proof fn law_row_document_kept(
    row: Map<Seq<char>, Seq<char>>,
    config: ConfigView,
    numbers: NumbersView,
)
    requires
        row_document(row, config, numbers) is Ok,
        config.country_name.len() > 0,
    ensures
        text::trim(row_document(row, config, numbers)->Ok_0.label).len() > 0,
        record::keepable(row_document(row, config, numbers)->Ok_0),
        record::kept(row_document(row, config, numbers)->Ok_0) == row_document(
            row,
            config,
            numbers,
        )->Ok_0,
{
    let document = described(
        row,
        config,
        numbers.latitude->Ok_0,
        numbers.longitude->Ok_0,
        popularity_of(row, numbers.popularity),
    );
    document::law_label_not_blank(document);
    lemma_row_aliases(row, config, numbers);
    record::law_row_keeps_document(document.labelled());
}

} // verus!
