//! Document rows: one escaped line of tab-separated fields for each document.
use vstd::prelude::*;

use crate::backend::BackendError;
use crate::decimal;
use crate::document::{AddressParts, AddressView, AdminHierarchy, DocumentView, GeoDocument, HierarchyView};
use crate::float::{Float32, Float64};
use crate::text;
use crate::text::CharSet;

verus! {

/// A character as it stands in a field.
pub open spec fn escape_char(c: char) -> Seq<char> {
    match c {
        '\\' => seq!['\\', '\\'],
        '\t' => seq!['\\', 't'],
        '\n' => seq!['\\', 'n'],
        other => seq![other],
    }
}

/// A text as it stands in a field: backslashes, tabs and line feeds are escaped.
pub open spec fn escaped(s: Seq<char>) -> Seq<char>
    decreases s.len(),
{
    if s.len() == 0 {
        Seq::<char>::empty()
    } else {
        escape_char(s[0]) + escaped(s.drop_first())
    }
}

/// What a backslash and the character after it stand for.
pub open spec fn unescape_pair(c: char) -> Seq<char> {
    match c {
        't' => seq!['\t'],
        'n' => seq!['\n'],
        '\\' => seq!['\\'],
        other => seq!['\\', other],
    }
}

/// The text that a field stands for. A backslash that begins no escape stands for itself.
pub open spec fn unescaped(s: Seq<char>) -> Seq<char>
    decreases s.len(),
{
    if s.len() == 0 {
        Seq::<char>::empty()
    } else if s[0] != '\\' {
        seq![s[0]] + unescaped(s.drop_first())
    } else if s.len() == 1 {
        seq!['\\']
    } else {
        unescape_pair(s[1]) + unescaped(s.skip(2))
    }
}

/// The text as it stands in a field.
pub fn escape(value: &str) -> (result: String)
    ensures
        result@ == escaped(value@),
{
    let chars = text::chars_of(value);
    let mut result = String::new();
    let mut i: usize = 0;
    assert(chars@.skip(0) =~= chars@);
    while i < chars.len()
        invariant
            i <= chars@.len(),
            chars@ == value@,
            result@ + escaped(chars@.skip(i as int)) == escaped(value@),
        decreases chars@.len() - i,
    {
        let ghost before = result@;
        let c = chars[i];
        match c {
            '\\' => {
                result.push('\\');
                result.push('\\');
            },
            '\t' => {
                result.push('\\');
                result.push('t');
            },
            '\n' => {
                result.push('\\');
                result.push('n');
            },
            other => {
                result.push(other);
            },
        }
        assert(result@ =~= before + escape_char(c));
        assert(chars@.skip(i as int).drop_first() =~= chars@.skip(i + 1));
        assert(result@ + escaped(chars@.skip(i + 1)) =~= before + escaped(chars@.skip(i as int)));
        i = i + 1;
    }
    assert(result@ =~= result@ + escaped(chars@.skip(i as int)));
    result
}

/// The text that a field stands for.
pub fn unescape(value: &str) -> (result: String)
    ensures
        result@ == unescaped(value@),
{
    let chars = text::chars_of(value);
    let mut result = String::new();
    let mut i: usize = 0;
    assert(chars@.skip(0) =~= chars@);
    while i < chars.len()
        invariant
            i <= chars@.len(),
            chars@ == value@,
            result@ + unescaped(chars@.skip(i as int)) == unescaped(value@),
        decreases chars@.len() - i,
    {
        let ghost before = result@;
        let ghost rest = chars@.skip(i as int);
        let c = chars[i];
        assert(rest[0] == c);
        if c != '\\' {
            result.push(c);
            assert(rest.drop_first() =~= chars@.skip(i + 1));
            assert(result@ + unescaped(chars@.skip(i + 1)) =~= before + unescaped(rest));
            i = i + 1;
        } else if i + 1 < chars.len() {
            let d = chars[i + 1];
            match d {
                't' => {
                    result.push('\t');
                },
                'n' => {
                    result.push('\n');
                },
                '\\' => {
                    result.push('\\');
                },
                other => {
                    result.push('\\');
                    result.push(other);
                },
            }
            assert(result@ =~= before + unescape_pair(d));
            assert(rest[1] == d);
            assert(rest.skip(2) =~= chars@.skip(i + 2));
            assert(result@ + unescaped(chars@.skip(i + 2)) =~= before + unescaped(rest));
            i = i + 2;
        } else {
            result.push('\\');
            assert(chars@.skip(i + 1) =~= Seq::<char>::empty());
            assert(result@ + unescaped(chars@.skip(i + 1)) =~= before + unescaped(rest));
            i = i + 1;
        }
    }
    assert(result@ =~= result@ + unescaped(chars@.skip(i as int)));
    result
}

/// The field of an optional text: empty where there is none.
pub open spec fn escaped_optional(value: Option<Seq<char>>) -> Seq<char> {
    match value {
        Some(v) => escaped(v),
        None => Seq::<char>::empty(),
    }
}

/// The field of an optional text.
pub fn escape_opt(value: &Option<String>) -> (result: String)
    ensures
        result@ == escaped_optional(value.deep_view()),
{
    match value {
        Some(value) => escape(value.as_str()),
        None => String::new(),
    }
}

/// The text, where it has a character.
pub open spec fn if_filled(value: Seq<char>) -> Option<Seq<char>> {
    if value.len() == 0 {
        None
    } else {
        Some(value)
    }
}

/// The text, where it has a character.
pub fn none_if_empty(value: String) -> (result: Option<String>)
    ensures
        result.deep_view() == if_filled(value@),
{
    if value.as_str().is_empty() {
        None
    } else {
        Some(value)
    }
}

/// Unescaping an escaped text gives the text back.
pub proof fn law_unescape_escape(s: Seq<char>)
    ensures
        unescaped(escaped(s)) == s,
    decreases s.len(),
{
    if s.len() > 0 {
        let rest = s.drop_first();
        law_unescape_escape(rest);
        let all = escaped(s);
        let tail = escaped(rest);
        assert(all == escape_char(s[0]) + tail);
        if s[0] == '\\' || s[0] == '\t' || s[0] == '\n' {
            assert(all.skip(2) =~= tail);
            assert(unescaped(all) =~= seq![s[0]] + rest);
        } else {
            assert(all.drop_first() =~= tail);
            assert(unescaped(all) =~= seq![s[0]] + rest);
        }
        assert(seq![s[0]] + rest =~= s);
    } else {
        assert(unescaped(escaped(s)) =~= s);
    }
}

/// An escaped text has no tab and no line feed.
pub proof fn law_escape_hides_separators(s: Seq<char>)
    ensures
        text::free_of(escaped(s), CharSet::Either('\t', '\n')),
    decreases s.len(),
{
    if s.len() > 0 {
        law_escape_hides_separators(s.drop_first());
        let head = escape_char(s[0]);
        let tail = escaped(s.drop_first());
        assert forall|i: int| 0 <= i < escaped(s).len() implies !CharSet::Either('\t', '\n').has(
            #[trigger] escaped(s)[i],
        ) by {
            if i >= head.len() {
                assert(escaped(s)[i] == tail[i - head.len()]);
            } else {
                assert(escaped(s)[i] == head[i]);
            }
        }
    }
}

/// The numbers of a document in decimal notation.
#[derive(Clone, Debug)]
pub struct DocumentNumerals {
    pub latitude: String,
    pub longitude: String,
    pub popularity: String,
}

/// What a `DocumentNumerals` holds.
pub ghost struct NumeralsView {
    pub latitude: Seq<char>,
    pub longitude: Seq<char>,
    pub popularity: Seq<char>,
}

impl View for DocumentNumerals {
    type V = NumeralsView;

    open spec fn view(&self) -> NumeralsView {
        NumeralsView {
            latitude: self.latitude@,
            longitude: self.longitude@,
            popularity: self.popularity@,
        }
    }
}

impl DeepView for DocumentNumerals {
    type V = NumeralsView;

    open spec fn deep_view(&self) -> NumeralsView {
        self@
    }
}

/// The numbers that the numerals of a document stand for, or why they stand for none.
#[derive(Debug)]
pub struct DocumentNumbers {
    pub latitude: Result<Float64, String>,
    pub longitude: Result<Float64, String>,
    pub popularity: Result<Float32, String>,
}

/// What a `DocumentNumbers` holds.
pub ghost struct NumbersView {
    pub latitude: Result<Float64, Seq<char>>,
    pub longitude: Result<Float64, Seq<char>>,
    pub popularity: Result<Float32, Seq<char>>,
}

/// The outcome, with the message of a failure as a sequence of characters.
pub open spec fn outcome<T>(result: Result<T, String>) -> Result<T, Seq<char>> {
    match result {
        Ok(value) => Ok(value),
        Err(message) => Err(message@),
    }
}

impl View for DocumentNumbers {
    type V = NumbersView;

    open spec fn view(&self) -> NumbersView {
        NumbersView {
            latitude: outcome(self.latitude),
            longitude: outcome(self.longitude),
            popularity: outcome(self.popularity),
        }
    }
}

impl DeepView for DocumentNumbers {
    type V = NumbersView;

    open spec fn deep_view(&self) -> NumbersView {
        self@
    }
}

/// The fields of the row of a document.
pub open spec fn row_fields(document: DocumentView, numerals: NumeralsView) -> Seq<Seq<char>> {
    seq![
        escaped(document.id),
        escaped(document.source),
        escaped(document.layer),
        escaped(document.name),
        escaped(document.label),
        escaped(document.country_code),
        numerals.latitude,
        numerals.longitude,
        numerals.popularity,
        escaped_optional(document.admin_hierarchy.country),
        escaped_optional(document.admin_hierarchy.region),
        escaped_optional(document.admin_hierarchy.county),
        escaped_optional(document.admin_hierarchy.locality),
        escaped_optional(document.admin_hierarchy.neighbourhood),
        escaped_optional(document.address.house_number),
        escaped_optional(document.address.street),
        escaped_optional(document.address.postal_code),
        escaped(text::join(document.aliases, seq!['|'])),
    ]
}

/// The row of a document, which ends in a line feed.
pub open spec fn row_of(document: DocumentView, numerals: NumeralsView) -> Seq<char> {
    text::join(row_fields(document, numerals), seq!['\t']).push('\n')
}

/// The row of a document. Its numbers stand in it as the numerals write them.
pub fn encode_document(document: &GeoDocument, numerals: &DocumentNumerals) -> (result: String)
    ensures
        result@ == row_of(document@, numerals@),
{
    let aliases = text::joined(&document.aliases, "|");
    let mut fields: Vec<String> = Vec::new();
    fields.push(escape(document.id.as_str()));
    fields.push(escape(document.source.as_str()));
    fields.push(escape(document.layer.as_str()));
    fields.push(escape(document.name.as_str()));
    fields.push(escape(document.label.as_str()));
    fields.push(escape(document.country_code.as_str()));
    fields.push(numerals.latitude.clone());
    fields.push(numerals.longitude.clone());
    fields.push(numerals.popularity.clone());
    fields.push(escape_opt(&document.admin_hierarchy.country));
    fields.push(escape_opt(&document.admin_hierarchy.region));
    fields.push(escape_opt(&document.admin_hierarchy.county));
    fields.push(escape_opt(&document.admin_hierarchy.locality));
    fields.push(escape_opt(&document.admin_hierarchy.neighbourhood));
    fields.push(escape_opt(&document.address.house_number));
    fields.push(escape_opt(&document.address.street));
    fields.push(escape_opt(&document.address.postal_code));
    fields.push(escape(aliases.as_str()));
    proof {
        reveal_strlit("|");
        reveal_strlit("\t");
        assert("|"@ =~= seq!['|']);
        assert("\t"@ =~= seq!['\t']);
        assert(fields.deep_view() =~= row_fields(document@, numerals@));
    }
    let mut result = text::joined(&fields, "\t");
    result.push('\n');
    result
}

/// The fields of a line, unescaped.
pub open spec fn line_fields(line: Seq<char>) -> Seq<Seq<char>> {
    text::pieces(line, CharSet::Only('\t')).map_values(|field: Seq<char>| unescaped(field))
}

/// The aliases that a field lists.
pub open spec fn listed_aliases(field: Seq<char>) -> Seq<Seq<char>> {
    text::pieces(field, CharSet::Only('|')).filter(text::filled())
}

/// What is said of a row that has not as many fields as a document.
pub open spec fn field_count_message(count: nat) -> Seq<char> {
    "invalid document row: expected 18 fields, got "@ + decimal::digits(count)
}

/// The document that the fields and numbers of a row make.
pub open spec fn document_of(
    fields: Seq<Seq<char>>,
    latitude: Float64,
    longitude: Float64,
    popularity: Float32,
) -> DocumentView {
    DocumentView {
        id: fields[0],
        source: fields[1],
        layer: fields[2],
        name: fields[3],
        label: fields[4],
        country_code: fields[5],
        latitude,
        longitude,
        popularity,
        admin_hierarchy: HierarchyView {
            country: if_filled(fields[9]),
            region: if_filled(fields[10]),
            county: if_filled(fields[11]),
            locality: if_filled(fields[12]),
            neighbourhood: if_filled(fields[13]),
        },
        address: AddressView {
            house_number: if_filled(fields[14]),
            street: if_filled(fields[15]),
            postal_code: if_filled(fields[16]),
        },
        aliases: listed_aliases(fields[17]),
    }
}

/// The document of a row, or what is wrong with the row: a wrong number of fields, or else the
/// first of its numerals that is at fault.
pub open spec fn decoded(line: Seq<char>, numbers: NumbersView) -> Result<
    DocumentView,
    Seq<char>,
> {
    let fields = line_fields(line);
    if fields.len() != 18 {
        Err(field_count_message(fields.len()))
    } else if numbers.latitude is Err {
        Err(numbers.latitude->Err_0)
    } else if numbers.longitude is Err {
        Err(numbers.longitude->Err_0)
    } else if numbers.popularity is Err {
        Err(numbers.popularity->Err_0)
    } else {
        Ok(
            document_of(
                fields,
                numbers.latitude->Ok_0,
                numbers.longitude->Ok_0,
                numbers.popularity->Ok_0,
            ),
        )
    }
}

fn fields_of_line(line: &str) -> (result: Vec<String>)
    ensures
        result.deep_view() == line_fields(line@),
{
    let parts = text::split(line, CharSet::Only('\t'));
    let ghost all = parts.deep_view();
    let mut result: Vec<String> = Vec::new();
    let mut i: usize = 0;
    while i < parts.len()
        invariant
            i <= parts@.len(),
            all == parts.deep_view(),
            result.deep_view() == all.take(i as int).map_values(
                |field: Seq<char>| unescaped(field),
            ),
        decreases parts@.len() - i,
    {
        let ghost before = result.deep_view();
        let field = unescape(parts[i].as_str());
        result.push(field);
        assert(result.deep_view() =~= before.push(field@));
        assert(all.take(i + 1) =~= all.take(i as int).push(all[i as int]));
        i = i + 1;
    }
    assert(all.take(i as int) =~= all);
    result
}

/// The numerals of a row, where it has as many fields as a document.
pub open spec fn numerals_in(line: Seq<char>) -> Option<NumeralsView> {
    let fields = line_fields(line);
    if fields.len() == 18 {
        Some(
            NumeralsView { latitude: fields[6], longitude: fields[7], popularity: fields[8] },
        )
    } else {
        None
    }
}

/// The numerals of a row, where it has as many fields as a document.
pub fn row_numerals(line: &str) -> (result: Option<DocumentNumerals>)
    ensures
        result.deep_view() == numerals_in(line@),
{
    let fields = fields_of_line(line);
    let ghost all = fields.deep_view();
    if fields.len() != 18 {
        return None;
    }
    assert(all[6] == fields@[6]@ && all[7] == fields@[7]@ && all[8] == fields@[8]@);
    Some(
        DocumentNumerals {
            latitude: fields[6].clone(),
            longitude: fields[7].clone(),
            popularity: fields[8].clone(),
        },
    )
}

/// The document of a row, given the numbers that its numerals stand for.
pub fn decode_document(line: &str, numbers: &DocumentNumbers) -> (result: Result<
    GeoDocument,
    BackendError,
>)
    ensures
        match result {
            Ok(document) => decoded(line@, numbers@) == Ok::<DocumentView, Seq<char>>(document@),
            Err(error) => decoded(line@, numbers@) == Err::<DocumentView, Seq<char>>(error@),
        },
{
    let fields = fields_of_line(line);
    let ghost all = fields.deep_view();
    if fields.len() != 18 {
        let count = decimal::unsigned_text(fields.len() as u64);
        let mut message = "invalid document row: expected 18 fields, got ".to_owned();
        message.append(count.as_str());
        return Err(BackendError::new(message.as_str()));
    }
    let latitude = match &numbers.latitude {
        Ok(value) => *value,
        Err(message) => return Err(BackendError::new(message.as_str())),
    };
    let longitude = match &numbers.longitude {
        Ok(value) => *value,
        Err(message) => return Err(BackendError::new(message.as_str())),
    };
    let popularity = match &numbers.popularity {
        Ok(value) => *value,
        Err(message) => return Err(BackendError::new(message.as_str())),
    };
    assert forall|i: int| 0 <= i < 18 implies #[trigger] all[i] == fields@[i]@ by {
    }
    let document = GeoDocument {
        id: fields[0].clone(),
        source: fields[1].clone(),
        layer: fields[2].clone(),
        name: fields[3].clone(),
        label: fields[4].clone(),
        country_code: fields[5].clone(),
        latitude,
        longitude,
        popularity,
        admin_hierarchy: AdminHierarchy {
            country: none_if_empty(fields[9].clone()),
            region: none_if_empty(fields[10].clone()),
            county: none_if_empty(fields[11].clone()),
            locality: none_if_empty(fields[12].clone()),
            neighbourhood: none_if_empty(fields[13].clone()),
        },
        address: AddressParts {
            house_number: none_if_empty(fields[14].clone()),
            street: none_if_empty(fields[15].clone()),
            postal_code: none_if_empty(fields[16].clone()),
        },
        aliases: text::keep_filled(&text::split(fields[17].as_str(), CharSet::Only('|'))),
    };
    assert(document@ == document_of(all, latitude, longitude, popularity));
    Ok(document)
}

/// A row without the line feeds that end it.
pub open spec fn row_line(line: Seq<char>) -> Seq<char> {
    text::trim_end(line, CharSet::Only('\n'))
}

/// A row that was read from the file of documents, without the line feeds that end it.
pub fn line_of_row(row: &str) -> (result: String)
    ensures
        result@ == row_line(row@),
{
    let chars = text::chars_of(row);
    let mut to: usize = chars.len();
    assert(chars@.take(to as int) =~= row@);
    while to > 0 && chars[to - 1] == '\n'
        invariant
            to <= chars@.len(),
            row_line(chars@.take(to as int)) == row_line(row@),
        decreases to,
    {
        assert(chars@.take(to as int).drop_last() =~= chars@.take(to - 1));
        to = to - 1;
    }
    text::string_of(&chars, 0, to)
}

/// Whether a numeral stands in a row as it is: it has no tab, line feed or backslash.
pub open spec fn plain_numeral(s: Seq<char>) -> bool {
    text::free_of(s, CharSet::Either('\t', '\n')) && text::free_of(s, CharSet::Only('\\'))
}

/// Whether all numerals stand in a row as they are.
pub open spec fn plain_numerals(numerals: NumeralsView) -> bool {
    plain_numeral(numerals.latitude) && plain_numeral(numerals.longitude) && plain_numeral(
        numerals.popularity,
    )
}

/// What a row keeps of an optional text: an empty text is as none.
pub open spec fn kept_optional(value: Option<Seq<char>>) -> Option<Seq<char>> {
    match value {
        Some(v) => if_filled(v),
        None => None,
    }
}

/// What a row keeps of a document: empty texts are as none, and aliases are told apart by the
/// bars between them.
pub open spec fn kept(document: DocumentView) -> DocumentView {
    DocumentView {
        admin_hierarchy: HierarchyView {
            country: kept_optional(document.admin_hierarchy.country),
            region: kept_optional(document.admin_hierarchy.region),
            county: kept_optional(document.admin_hierarchy.county),
            locality: kept_optional(document.admin_hierarchy.locality),
            neighbourhood: kept_optional(document.admin_hierarchy.neighbourhood),
        },
        address: AddressView {
            house_number: kept_optional(document.address.house_number),
            street: kept_optional(document.address.street),
            postal_code: kept_optional(document.address.postal_code),
        },
        aliases: listed_aliases(text::join(document.aliases, seq!['|'])),
        ..document
    }
}

/// Whether a row keeps all of a document: no optional text is empty, and every alias has a
/// character and no bar.
pub open spec fn keepable(document: DocumentView) -> bool {
    let h = document.admin_hierarchy;
    let a = document.address;
    &&& kept_optional(h.country) == h.country
    &&& kept_optional(h.region) == h.region
    &&& kept_optional(h.county) == h.county
    &&& kept_optional(h.locality) == h.locality
    &&& kept_optional(h.neighbourhood) == h.neighbourhood
    &&& kept_optional(a.house_number) == a.house_number
    &&& kept_optional(a.street) == a.street
    &&& kept_optional(a.postal_code) == a.postal_code
    &&& listable(document.aliases)
}

/// Whether aliases can be told apart by bars between them: each has a character and no bar.
pub open spec fn listable(aliases: Seq<Seq<char>>) -> bool {
    forall|i: int|
        0 <= i < aliases.len() ==> (#[trigger] aliases[i]).len() > 0 && text::free_of(
            aliases[i],
            CharSet::Only('|'),
        )
}

/// The numbers of a document, all of them read without a fault.
pub open spec fn numbers_of(document: DocumentView) -> NumbersView {
    NumbersView {
        latitude: Ok(document.latitude),
        longitude: Ok(document.longitude),
        popularity: Ok(document.popularity),
    }
}

proof fn lemma_unescape_plain(s: Seq<char>)
    requires
        text::free_of(s, CharSet::Only('\\')),
    ensures
        unescaped(s) == s,
    decreases s.len(),
{
    if s.len() > 0 {
        let rest = s.drop_first();
        assert forall|i: int| 0 <= i < rest.len() implies !CharSet::Only('\\').has(
            #[trigger] rest[i],
        ) by {
            assert(rest[i] == s[i + 1]);
        }
        lemma_unescape_plain(rest);
        assert(!CharSet::Only('\\').has(s[0]));
        assert(seq![s[0]] + rest =~= s);
    } else {
        assert(unescaped(s) =~= s);
    }
}

proof fn lemma_optional_field(value: Option<Seq<char>>)
    ensures
        text::free_of(escaped_optional(value), CharSet::Either('\t', '\n')),
        if_filled(unescaped(escaped_optional(value))) == kept_optional(value),
{
    match value {
        Some(v) => {
            law_escape_hides_separators(v);
            law_unescape_escape(v);
        },
        None => {},
    }
}

/// No field of a row has a tab or a line feed, and each unescapes to what the document holds.
pub proof fn lemma_row_fields(document: DocumentView, numerals: NumeralsView)
    requires
        plain_numerals(numerals),
    ensures
        ({
            let fields = row_fields(document, numerals);
            forall|i: int|
                0 <= i < fields.len() ==> text::free_of(
                    #[trigger] fields[i],
                    CharSet::Either('\t', '\n'),
                )
        }),
        ({
            let fields = row_fields(document, numerals).map_values(
                |field: Seq<char>| unescaped(field),
            );
            &&& fields[6] == numerals.latitude
            &&& fields[7] == numerals.longitude
            &&& fields[8] == numerals.popularity
            &&& document_of(fields, document.latitude, document.longitude, document.popularity)
                == kept(document)
        }),
{
    law_escape_hides_separators(document.id);
    law_unescape_escape(document.id);
    law_escape_hides_separators(document.source);
    law_unescape_escape(document.source);
    law_escape_hides_separators(document.layer);
    law_unescape_escape(document.layer);
    law_escape_hides_separators(document.name);
    law_unescape_escape(document.name);
    law_escape_hides_separators(document.label);
    law_unescape_escape(document.label);
    law_escape_hides_separators(document.country_code);
    law_unescape_escape(document.country_code);
    lemma_unescape_plain(numerals.latitude);
    lemma_unescape_plain(numerals.longitude);
    lemma_unescape_plain(numerals.popularity);
    lemma_optional_field(document.admin_hierarchy.country);
    lemma_optional_field(document.admin_hierarchy.region);
    lemma_optional_field(document.admin_hierarchy.county);
    lemma_optional_field(document.admin_hierarchy.locality);
    lemma_optional_field(document.admin_hierarchy.neighbourhood);
    lemma_optional_field(document.address.house_number);
    lemma_optional_field(document.address.street);
    lemma_optional_field(document.address.postal_code);
    let aliases = text::join(document.aliases, seq!['|']);
    law_escape_hides_separators(aliases);
    law_unescape_escape(aliases);
}

/// Decoding the row of a document gives back what the row keeps of the document, and its numerals
/// stand in the row as they were written.
pub proof fn law_decode_encode(document: DocumentView, numerals: NumeralsView)
    requires
        plain_numerals(numerals),
    ensures
        ({
            let line = row_line(row_of(document, numerals));
            &&& numerals_in(line) == Some(numerals)
            &&& decoded(line, numbers_of(document)) == Ok::<DocumentView, Seq<char>>(kept(document))
        }),
{
    let fields = row_fields(document, numerals);
    let tab = CharSet::Only('\t');
    lemma_row_fields(document, numerals);
    assert forall|i: int| 0 <= i < fields.len() implies text::free_of(
        #[trigger] fields[i],
        tab,
    ) by {
        let field = fields[i];
        assert(text::free_of(field, CharSet::Either('\t', '\n')));
        assert forall|j: int| 0 <= j < field.len() implies !tab.has(#[trigger] field[j]) by {
            assert(!CharSet::Either('\t', '\n').has(field[j]));
        }
    }
    text::lemma_pieces_of_join(fields, '\t', tab);
    lemma_row_line(document, numerals);
}

/// The row of a document is one line: its only line feed is its last character.
pub proof fn lemma_row_line(document: DocumentView, numerals: NumeralsView)
    requires
        plain_numerals(numerals),
    ensures
        row_line(row_of(document, numerals)) == text::join(
            row_fields(document, numerals),
            seq!['\t'],
        ),
        text::free_of(row_line(row_of(document, numerals)), CharSet::Only('\n')),
        row_of(document, numerals) == row_line(row_of(document, numerals)).push('\n'),
{
    lemma_row_fields(document, numerals);
    lemma_joined_line(row_fields(document, numerals));
}

/// Fields without line feeds make one line.
proof fn lemma_joined_line(fields: Seq<Seq<char>>)
    requires
        forall|i: int|
            0 <= i < fields.len() ==> text::free_of(
                #[trigger] fields[i],
                CharSet::Either('\t', '\n'),
            ),
    ensures
        ({
            let line = text::join(fields, seq!['\t']);
            &&& row_line(line.push('\n')) == line
            &&& text::free_of(line, CharSet::Only('\n'))
        }),
{
    let newline = CharSet::Only('\n');
    assert forall|i: int| 0 <= i < fields.len() implies text::free_of(
        #[trigger] fields[i],
        newline,
    ) by {
        let field = fields[i];
        assert(text::free_of(field, CharSet::Either('\t', '\n')));
        assert forall|j: int| 0 <= j < field.len() implies !newline.has(#[trigger] field[j]) by {
            assert(!CharSet::Either('\t', '\n').has(field[j]));
        }
    }
    let line = text::join(fields, seq!['\t']);
    text::lemma_join_free(fields, seq!['\t'], newline);
    assert(line.push('\n').drop_last() =~= line);
    assert(line.push('\n').last() == '\n');
    if line.len() > 0 {
        assert(!newline.has(line[line.len() - 1]));
    }
    assert(text::trim_end(line, newline) == line);
}

/// Aliases that bars tell apart are kept.
proof fn lemma_listed_aliases(aliases: Seq<Seq<char>>)
    requires
        listable(aliases),
    ensures
        listed_aliases(text::join(aliases, seq!['|'])) == aliases,
{
    let bar = CharSet::Only('|');
    if aliases.len() == 0 {
        let none = Seq::<Seq<char>>::empty();
        none.lemma_filter_push(Seq::<char>::empty(), text::filled());
        assert(none.push(Seq::<char>::empty()) =~= seq![Seq::<char>::empty()]);
        none.lemma_filter_len(text::filled());
        assert(none.filter(text::filled()) =~= aliases);
        assert(text::pieces(Seq::<char>::empty(), bar) =~= seq![Seq::<char>::empty()]);
    } else {
        assert forall|i: int| 0 <= i < aliases.len() implies text::free_of(
            #[trigger] aliases[i],
            bar,
        ) by {
        }
        text::lemma_pieces_of_join(aliases, '|', bar);
        text::lemma_filled_all(aliases);
    }
}

/// A row keeps all of a document that has no empty optional text, and no alias that is empty or
/// has a bar in it.
pub proof fn law_row_keeps_document(document: DocumentView)
    requires
        keepable(document),
    ensures
        kept(document) == document,
{
    lemma_listed_aliases(document.aliases);
}

/// Decoding the row of a document gives the document back, whatever tabs, line feeds and
/// backslashes its texts hold, where the numerals of the row stand for the numbers of the document,
/// no optional text is empty, and no alias is empty or has a bar in it.
pub proof fn law_row_read_back(
    document: DocumentView,
    numerals: NumeralsView,
    numbers: NumbersView,
)
    requires
        keepable(document),
        plain_numerals(numerals),
        numbers == numbers_of(document),
    ensures
        decoded(row_line(row_of(document, numerals)), numbers) == Ok::<DocumentView, Seq<char>>(
            document,
        ),
{
    law_decode_encode(document, numerals);
    law_row_keeps_document(document);
}

/// What a row keeps of a document has the same row, and is kept whole; where aliases can be told
/// apart, only optional texts that are empty are lost.
pub proof fn lemma_kept(document: DocumentView, numerals: NumeralsView)
    requires
        listable(document.aliases),
    ensures
        row_of(kept(document), numerals) == row_of(document, numerals),
        kept(document).aliases == document.aliases,
        kept(kept(document)) == kept(document),
{
    lemma_listed_aliases(document.aliases);
    assert(row_fields(kept(document), numerals) =~= row_fields(document, numerals)) by {
        lemma_kept_field(document.admin_hierarchy.country);
        lemma_kept_field(document.admin_hierarchy.region);
        lemma_kept_field(document.admin_hierarchy.county);
        lemma_kept_field(document.admin_hierarchy.locality);
        lemma_kept_field(document.admin_hierarchy.neighbourhood);
        lemma_kept_field(document.address.house_number);
        lemma_kept_field(document.address.street);
        lemma_kept_field(document.address.postal_code);
    }
}

proof fn lemma_kept_field(value: Option<Seq<char>>)
    ensures
        escaped_optional(kept_optional(value)) == escaped_optional(value),
{
    match value {
        Some(v) => {
            if v.len() == 0 {
                assert(escaped(v) =~= Seq::<char>::empty());
            }
        },
        None => {},
    }
}

/// An escaped text ends as the text does, or in a character of an escape.
proof fn lemma_escaped_last(s: Seq<char>)
    requires
        s.len() > 0,
    ensures
        escaped(s).len() > 0,
        escaped(s).last() == s.last() || escaped(s).last() == '\\' || escaped(s).last() == 't'
            || escaped(s).last() == 'n',
    decreases s.len(),
{
    let rest = s.drop_first();
    if rest.len() > 0 {
        lemma_escaped_last(rest);
        assert(escaped(s).last() == escaped(rest).last());
    } else {
        assert(escaped(rest) =~= Seq::<char>::empty());
        assert(escaped(s) =~= escape_char(s[0]));
    }
}

/// The row of a document is not ended by a carriage return, where no alias is.
pub proof fn lemma_row_end(document: DocumentView, numerals: NumeralsView)
    requires
        plain_numerals(numerals),
        document.aliases.len() > 0 ==> document.aliases.last().len() > 0
            && document.aliases.last().last() != '\r',
    ensures
        ({
            let line = row_line(row_of(document, numerals));
            text::strip_return(line) == line
        }),
{
    lemma_row_line(document, numerals);
    let listed = text::join(document.aliases, seq!['|']);
    if document.aliases.len() > 0 {
        lemma_escaped_last(listed);
    } else {
        assert(listed =~= Seq::<char>::empty());
    }
    lemma_last_field(row_fields(document, numerals));
}

/// Joined fields end as the last field does, or in a tab where it is empty.
proof fn lemma_last_field(fields: Seq<Seq<char>>)
    requires
        fields.len() > 1,
    ensures
        ({
            let line = text::join(fields, seq!['\t']);
            line.len() > 0 && line.last() == if fields.last().len() > 0 {
                fields.last().last()
            } else {
                '\t'
            }
        }),
{
}

} // verus!
