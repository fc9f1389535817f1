//! What configuration files say.
use vstd::prelude::*;

use crate::config;
use crate::config::{BoundNumbers, ConfigView, SearchView};
use crate::decimal;
use crate::float::Float64;
use crate::query::Bounds;
use crate::text;
use crate::text::CharSet;

verus! {

proof fn lemma_said(a: Seq<char>, comment: Seq<char>)
    requires
        forall|i: int| 0 <= i < a.len() ==> #[trigger] a[i] != '#',
    ensures
        config::said(a) == text::trim(a),
        config::said(a.push('#') + comment) == text::trim(a),
{
    let set = CharSet::Only('#');
    assert forall|i: int| 0 <= i < a.len() implies !set.has(#[trigger] a[i]) by {
        assert(a[i] != '#');
    }
    text::lemma_one_piece(a, set);
    text::lemma_pieces_divide(a, '#', comment, set);
    assert((seq![a] + text::pieces(comment, set))[0] == a);
}

/// What follows the first number sign of a line says nothing.
pub proof fn law_comments_are_left_out(
    lines: Seq<Seq<char>>,
    line: Seq<char>,
    comment: Seq<char>,
)
    requires
        forall|i: int| 0 <= i < line.len() ==> #[trigger] line[i] != '#',
    ensures
        config::settings(lines.push(line.push('#') + comment)) == config::settings(
            lines.push(line),
        ),
{
    lemma_said(line, comment);
    assert(lines.push(line).drop_last() =~= lines);
    assert(lines.push(line.push('#') + comment).drop_last() =~= lines);
}

/// A line that begins with an opening bracket and ends in a closing one opens the section that the
/// brackets enclose, and sets nothing.
pub proof fn law_line_of_section(lines: Seq<Seq<char>>, line: Seq<char>)
    requires
        forall|i: int| 0 <= i < line.len() ==> #[trigger] line[i] != '#',
        text::trim(line).len() > 0,
        text::trim(line)[0] == '[',
        text::trim(line).last() == ']',
    ensures
        config::settings(Seq::<Seq<char>>::empty()) == (
            Seq::<char>::empty(),
            Map::<Seq<char>, Seq<char>>::empty(),
        ),
        config::settings(lines.push(line)).0 == text::trim_set(
            text::trim(line),
            CharSet::Either('[', ']'),
        ),
        config::settings(lines.push(line)).1 == config::settings(lines).1,
{
    lemma_said(line, Seq::<char>::empty());
    assert(lines.push(line).drop_last() =~= lines);
}

/// Any other line with an equals sign sets the key before its first equals sign, after the name of
/// the open section and a full stop where a section is open. The value is what follows, without
/// white space at its ends and without quotation marks at the ends of the rest. Other keys keep
/// their values, and the section stays open.
pub proof fn law_line_of_setting(lines: Seq<Seq<char>>, line: Seq<char>, key: Seq<char>, value: Seq<char>)
    requires
        forall|i: int| 0 <= i < line.len() ==> #[trigger] line[i] != '#',
        text::trim(line) == key.push('=') + value,
        forall|i: int| 0 <= i < key.len() ==> #[trigger] key[i] != '=',
        text::trim(line)[0] != '[' || text::trim(line).last() != ']',
    ensures
        ({
            let (section, values) = config::settings(lines);
            config::settings(lines.push(line)) == (
                section,
                values.insert(
                    if section.len() == 0 {
                        text::trim(key)
                    } else {
                        section + seq!['.'] + text::trim(key)
                    },
                    text::trim_set(text::trim(value), CharSet::Only('"')),
                ),
            )
        }),
{
    lemma_said(line, Seq::<char>::empty());
    assert(lines.push(line).drop_last() =~= lines);
    let s = key.push('=') + value;
    assert forall|j: int| 0 <= j < key.len() implies s[j] != '=' by {
        assert(s[j] == key[j]);
    }
    text::lemma_find(s, '=', key.len() as int);
    assert(s.take(key.len() as int) =~= key);
    assert(s.skip(key.len() as int + 1) =~= value);
    let section = config::settings(lines).0;
    assert(section.push('.') + text::trim(key) =~= section + seq!['.'] + text::trim(key));
}

/// Any other line without an equals sign changes nothing.
pub proof fn law_line_without_setting(lines: Seq<Seq<char>>, line: Seq<char>)
    requires
        forall|i: int| 0 <= i < line.len() ==> #[trigger] line[i] != '#' && line[i] != '=',
        text::trim(line).len() == 0 || text::trim(line)[0] != '[' || text::trim(line).last() != ']',
    ensures
        config::settings(lines.push(line)) == config::settings(lines),
{
    lemma_said(line, Seq::<char>::empty());
    assert(lines.push(line).drop_last() =~= lines);
    let set = CharSet::Only('=');
    assert forall|i: int| 0 <= i < line.len() implies !set.has(#[trigger] line[i]) by {
        assert(line[i] != '=');
    }
    text::lemma_trim_free(line, CharSet::Space, set);
    text::lemma_trim_free(text::trim_start(line, CharSet::Space), CharSet::Space, set);
    let s = text::trim(line);
    assert forall|j: int| 0 <= j < s.len() implies s[j] != '=' by {
        assert(!set.has(s[j]));
    }
    text::lemma_find(s, '=', s.len() as int);
}

/// The items of a list are what commas divide between its brackets, each without white space at
/// its ends and without quotation marks at the ends of the rest, as far as anything is left of it.
pub proof fn law_items_of_list(value: Seq<char>)
    ensures
        config::items(value) == text::pieces(
            text::trim_set(value, CharSet::Either('[', ']')),
            CharSet::Only(','),
        ).map_values(
            |item: Seq<char>| text::trim_set(text::trim(item), CharSet::Only('"')),
        ).filter(|item: Seq<char>| item.len() > 0),
{
    let plain = |item: Seq<char>| text::trim_set(text::trim(item), CharSet::Only('"'));
    let kept = |item: Seq<char>| item.len() > 0;
    assert(kept =~= text::filled());
    assert(plain =~= (|item: Seq<char>| config::plain_value(item)));
}

/// What a configuration takes its parts from. Each of the twelve keys has to be there, the bounds
/// and the three numbers have to be numbers, and the first that is at fault is reported: a key that
/// is missing by its name, and else why its value is no number.
pub proof fn law_configuration(values: Map<Seq<char>, Seq<char>>, bounds: BoundNumbers)
    ensures
        ({
            let absent = |key: Seq<char>|
                if values.contains_key(key) {
                    None
                } else {
                    Some("missing config key "@ + key)
                };
            let degrees_fault = |key: Seq<char>, number: Result<Float64, String>|
                if !values.contains_key(key) {
                    Some("missing config key "@ + key)
                } else {
                    match number {
                        Ok(_) => None,
                        Err(message) => Some(message@),
                    }
                };
            let count_fault = |key: Seq<char>, max: nat|
                if !values.contains_key(key) {
                    Some("missing config key "@ + key)
                } else {
                    match decimal::number(values[key], max) {
                        Ok(_) => None,
                        Err(fault) => Some(fault.text()),
                    }
                };
            let count = |key: Seq<char>, max: nat| decimal::number(values[key], max)->Ok_0 as int;
            let faults = seq![
                absent("country_code"@),
                absent("country_name"@),
                absent("languages"@),
                absent("timezone"@),
                degrees_fault("bounds.min_lon"@, bounds.min_lon),
                degrees_fault("bounds.min_lat"@, bounds.min_lat),
                degrees_fault("bounds.max_lon"@, bounds.max_lon),
                degrees_fault("bounds.max_lat"@, bounds.max_lat),
                count_fault("search.default_limit"@, usize::MAX as nat),
                count_fault("search.autocomplete_limit"@, usize::MAX as nat),
                count_fault("search.reverse_radius_meters"@, u32::MAX as nat),
                absent("search.preferred_layers"@),
            ];
            let found = config::configured(values, bounds);
            &&& forall|i: int|
                0 <= i < 12 && (#[trigger] faults[i]) is Some && (forall|j: int|
                    0 <= j < i ==> (#[trigger] faults[j]) is None) ==> found == Err::<
                    ConfigView,
                    Seq<char>,
                >(faults[i]->0)
            &&& (forall|i: int| 0 <= i < 12 ==> (#[trigger] faults[i]) is None) ==> found == Ok::<
                ConfigView,
                Seq<char>,
            >(
                ConfigView {
                    country_code: values["country_code"@],
                    country_name: values["country_name"@],
                    languages: config::items(values["languages"@]),
                    timezone: values["timezone"@],
                    bounds: Bounds {
                        min_lon: bounds.min_lon->Ok_0,
                        min_lat: bounds.min_lat->Ok_0,
                        max_lon: bounds.max_lon->Ok_0,
                        max_lat: bounds.max_lat->Ok_0,
                    },
                    search: SearchView {
                        default_limit: count("search.default_limit"@, usize::MAX as nat),
                        autocomplete_limit: count("search.autocomplete_limit"@, usize::MAX as nat),
                        reverse_radius_meters: count(
                            "search.reverse_radius_meters"@,
                            u32::MAX as nat,
                        ),
                        preferred_layers: config::items(values["search.preferred_layers"@]),
                    },
                },
            )
        }),
{
}

} // verus!
