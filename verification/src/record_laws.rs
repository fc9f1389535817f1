//! What the rows of documents and the lines of index files hold.
use vstd::prelude::*;

use crate::decimal;
use crate::decimal::NumberFault;
use crate::document::{AddressView, DocumentView, HierarchyView};
use crate::index_file;
use crate::local;
use crate::local::FiguresView;
use crate::offsets;
use crate::ordered;
use crate::record;
use crate::record::{NumbersView, NumeralsView};
use crate::text;
use crate::text::CharSet;

verus! {

/// Text is escaped character by character: a backslash becomes two, a tab a backslash and a `t`, a
/// line feed a backslash and an `n`, and any other character stays.
pub proof fn law_escaping(a: Seq<char>, c: char, b: Seq<char>)
    ensures
        record::escaped(Seq::<char>::empty()) == Seq::<char>::empty(),
        record::escaped(a + b) == record::escaped(a) + record::escaped(b),
        record::escaped(seq!['\\']) == seq!['\\', '\\'],
        record::escaped(seq!['\t']) == seq!['\\', 't'],
        record::escaped(seq!['\n']) == seq!['\\', 'n'],
        c != '\\' && c != '\t' && c != '\n' ==> record::escaped(seq![c]) == seq![c],
{
    lemma_escaped_add(a, b);
    lemma_escaped_one('\\');
    lemma_escaped_one('\t');
    lemma_escaped_one('\n');
    lemma_escaped_one(c);
}

proof fn lemma_escaped_one(c: char)
    ensures
        record::escaped(seq![c]) == record::escape_char(c),
{
    let rest = seq![c].drop_first();
    assert(rest =~= Seq::<char>::empty());
    assert(record::escaped(rest) == Seq::<char>::empty());
    assert(record::escaped(seq![c]) =~= record::escape_char(c));
}

proof fn lemma_escaped_add(a: Seq<char>, b: Seq<char>)
    ensures
        record::escaped(a + b) == record::escaped(a) + record::escaped(b),
    decreases a.len(),
{
    if a.len() == 0 {
        assert(a + b =~= b);
        assert(record::escaped(a) + record::escaped(b) =~= record::escaped(b));
    } else {
        lemma_escaped_add(a.drop_first(), b);
        assert((a + b).drop_first() =~= a.drop_first() + b);
        assert(record::escaped(a + b) =~= record::escaped(a) + record::escaped(b));
    }
}

/// Text is unescaped from left to right: what precedes the first backslash stays; the backslash and
/// the character after it become a tab, a line feed or a backslash, or stay where they are no
/// escape; and a backslash at the end stays.
pub proof fn law_unescaping(plain: Seq<char>, c: char, rest: Seq<char>)
    requires
        forall|i: int| 0 <= i < plain.len() ==> #[trigger] plain[i] != '\\',
    ensures
        record::unescaped(plain) == plain,
        record::unescaped(plain + seq!['\\']) == plain + seq!['\\'],
        record::unescaped(plain + (seq!['\\', c] + rest)) == plain + (if c == 't' {
            seq!['\t']
        } else if c == 'n' {
            seq!['\n']
        } else if c == '\\' {
            seq!['\\']
        } else {
            seq!['\\', c]
        }) + record::unescaped(rest),
    decreases plain.len(),
{
    let end = seq!['\\'];
    let more = seq!['\\', c] + rest;
    if plain.len() == 0 {
        assert(plain + end =~= end);
        assert(plain + more =~= more);
        assert(more.skip(2) =~= rest);
        assert(record::unescaped(plain) =~= plain);
        assert(record::unescaped(end) =~= plain + end);
        assert(record::unescaped(more) =~= plain + record::unescape_pair(c) + record::unescaped(
            rest,
        ));
    } else {
        let tail = plain.drop_first();
        assert forall|i: int| 0 <= i < tail.len() implies #[trigger] tail[i] != '\\' by {
            assert(tail[i] == plain[i + 1]);
        }
        law_unescaping(tail, c, rest);
        assert(seq![plain[0]] + tail =~= plain);
        assert((plain + end).drop_first() =~= tail + end);
        assert((plain + more).drop_first() =~= tail + more);
        assert(record::unescaped(plain) =~= plain);
        assert(record::unescaped(plain + end) =~= plain + end);
        assert(record::unescaped(plain + more) =~= plain + record::unescape_pair(c)
            + record::unescaped(rest));
    }
}

/// The row of a document ends in a line feed, and tabs divide it into the eighteen fields of the
/// document in their order.
pub proof fn law_fields_of_row(document: DocumentView, numerals: NumeralsView)
    requires
        record::plain_numerals(numerals),
    ensures
        ({
            let row = record::row_of(document, numerals);
            let field = |value: Option<Seq<char>>|
                if value is Some {
                    record::escaped(value->0)
                } else {
                    Seq::<char>::empty()
                };
            &&& row.len() > 0
            &&& row.last() == '\n'
            &&& text::pieces(row.drop_last(), CharSet::Only('\t')) == seq![
                record::escaped(document.id),
                record::escaped(document.source),
                record::escaped(document.layer),
                record::escaped(document.name),
                record::escaped(document.label),
                record::escaped(document.country_code),
                numerals.latitude,
                numerals.longitude,
                numerals.popularity,
                field(document.admin_hierarchy.country),
                field(document.admin_hierarchy.region),
                field(document.admin_hierarchy.county),
                field(document.admin_hierarchy.locality),
                field(document.admin_hierarchy.neighbourhood),
                field(document.address.house_number),
                field(document.address.street),
                field(document.address.postal_code),
                record::escaped(text::join(document.aliases, seq!['|'])),
            ]
        }),
{
    let fields = record::row_fields(document, numerals);
    let tab = CharSet::Only('\t');
    let row = record::row_of(document, numerals);
    let line = text::join(fields, seq!['\t']);
    assert(row.drop_last() =~= line);
    record::lemma_row_fields(document, numerals);
    assert forall|i: int| 0 <= i < fields.len() implies text::free_of(#[trigger] fields[i], tab) by {
        let field = fields[i];
        assert(text::free_of(field, CharSet::Either('\t', '\n')));
        assert forall|j: int| 0 <= j < field.len() implies !tab.has(#[trigger] field[j]) by {
            assert(!CharSet::Either('\t', '\n').has(field[j]));
        }
    }
    text::lemma_pieces_of_join(fields, '\t', tab);
}

/// A line with eighteen fields is the document that the fields describe in their order: texts are
/// unescaped, an empty optional text is none, and bars divide the aliases, of which empty ones are
/// left out. A line with another number of fields is refused with their number, and else the first
/// of the numerals for latitude, longitude and popularity that is no number is what is reported.
pub proof fn law_document_of_fields(line: Seq<char>, numbers: NumbersView)
    ensures
        ({
            let fields = text::pieces(line, CharSet::Only('\t'));
            let text_at = |i: int| record::unescaped(fields[i]);
            let optional_at = |i: int|
                if record::unescaped(fields[i]).len() > 0 {
                    Some(record::unescaped(fields[i]))
                } else {
                    None
                };
            record::decoded(line, numbers) == if fields.len() != 18 {
                Err(
                    "invalid document row: expected 18 fields, got "@ + decimal::digits(
                        fields.len(),
                    ),
                )
            } else if numbers.latitude is Err {
                Err(numbers.latitude->Err_0)
            } else if numbers.longitude is Err {
                Err(numbers.longitude->Err_0)
            } else if numbers.popularity is Err {
                Err(numbers.popularity->Err_0)
            } else {
                Ok(
                    DocumentView {
                        id: text_at(0),
                        source: text_at(1),
                        layer: text_at(2),
                        name: text_at(3),
                        label: text_at(4),
                        country_code: text_at(5),
                        latitude: numbers.latitude->Ok_0,
                        longitude: numbers.longitude->Ok_0,
                        popularity: numbers.popularity->Ok_0,
                        admin_hierarchy: HierarchyView {
                            country: optional_at(9),
                            region: optional_at(10),
                            county: optional_at(11),
                            locality: optional_at(12),
                            neighbourhood: optional_at(13),
                        },
                        address: AddressView {
                            house_number: optional_at(14),
                            street: optional_at(15),
                            postal_code: optional_at(16),
                        },
                        aliases: text::pieces(text_at(17), CharSet::Only('|')).filter(
                            |alias: Seq<char>| alias.len() > 0,
                        ),
                    },
                )
            }
        }),
        ({
            let fields = text::pieces(line, CharSet::Only('\t'));
            record::numerals_in(line) == if fields.len() == 18 {
                Some(
                    NumeralsView {
                        latitude: record::unescaped(fields[6]),
                        longitude: record::unescaped(fields[7]),
                        popularity: record::unescaped(fields[8]),
                    },
                )
            } else {
                None
            }
        }),
{
    let fields = text::pieces(line, CharSet::Only('\t'));
    let all = record::line_fields(line);
    assert(all.len() == fields.len());
    assert forall|i: int| 0 <= i < all.len() implies #[trigger] all[i] == record::unescaped(
        fields[i],
    ) by {
    }
    let kept = |alias: Seq<char>| alias.len() > 0;
    assert(kept =~= text::filled());
}

/// Decoding the row of a document gives all of it back, whatever its texts hold, where no optional
/// text is empty and no alias is empty or has a bar in it.
pub proof fn law_document_comes_back(document: DocumentView, numerals: NumeralsView)
    requires
        record::plain_numerals(numerals),
        document.admin_hierarchy.country is Some ==> document.admin_hierarchy.country->0.len() > 0,
        document.admin_hierarchy.region is Some ==> document.admin_hierarchy.region->0.len() > 0,
        document.admin_hierarchy.county is Some ==> document.admin_hierarchy.county->0.len() > 0,
        document.admin_hierarchy.locality is Some ==> document.admin_hierarchy.locality->0.len()
            > 0,
        document.admin_hierarchy.neighbourhood is Some
            ==> document.admin_hierarchy.neighbourhood->0.len() > 0,
        document.address.house_number is Some ==> document.address.house_number->0.len() > 0,
        document.address.street is Some ==> document.address.street->0.len() > 0,
        document.address.postal_code is Some ==> document.address.postal_code->0.len() > 0,
        forall|i: int| 0 <= i < document.aliases.len() ==> (#[trigger] document.aliases[i]).len() > 0,
        forall|i: int, j: int|
            0 <= i < document.aliases.len() && 0 <= j < document.aliases[i].len()
                ==> #[trigger] document.aliases[i][j] != '|',
    ensures
        ({
            let row = record::row_of(document, numerals);
            let numbers = NumbersView {
                latitude: Ok(document.latitude),
                longitude: Ok(document.longitude),
                popularity: Ok(document.popularity),
            };
            &&& record::row_line(row) == row.drop_last()
            &&& record::numerals_in(row.drop_last()) == Some(numerals)
            &&& record::decoded(row.drop_last(), numbers) == Ok::<DocumentView, Seq<char>>(document)
        }),
{
    let aliases = document.aliases;
    assert forall|i: int| 0 <= i < aliases.len() implies (#[trigger] aliases[i]).len() > 0
        && text::free_of(aliases[i], CharSet::Only('|')) by {
        let alias = aliases[i];
        assert forall|j: int| 0 <= j < alias.len() implies !CharSet::Only('|').has(
            #[trigger] alias[j],
        ) by {
            assert(document.aliases[i][j] != '|');
        }
    }
    record::law_row_read_back(document, numerals, record::numbers_of(document));
    record::law_decode_encode(document, numerals);
    record::lemma_row_line(document, numerals);
    let row = record::row_of(document, numerals);
    assert(row.drop_last() =~= record::row_line(row));
}

/// The rows of a file are loaded one after another, each in place of any before it with the same
/// identifier, as documents are indexed; and the first row at fault is what loading fails with.
pub proof fn law_loading_rows(
    lines: Seq<Seq<char>>,
    numbers: Seq<NumbersView>,
    docs: Seq<DocumentView>,
)
    requires
        numbers.len() == lines.len(),
        docs.len() <= lines.len(),
        forall|i: int|
            0 <= i < docs.len() ==> record::decoded(#[trigger] lines[i], numbers[i]) == Ok::<
                DocumentView,
                Seq<char>,
            >(docs[i]),
    ensures
        docs.len() == lines.len() ==> local::loaded(lines, numbers) == Ok::<
            Map<Seq<char>, DocumentView>,
            Seq<char>,
        >(local::merged(Map::empty(), docs)),
        docs.len() < lines.len() && record::decoded(lines[docs.len() as int], numbers[docs.len() as int])
            is Err ==> local::loaded(lines, numbers) == Err::<
            Map<Seq<char>, DocumentView>,
            Seq<char>,
        >(record::decoded(lines[docs.len() as int], numbers[docs.len() as int])->Err_0),
{
    let n = docs.len() as int;
    lemma_loaded_prefix(lines, numbers, docs, n);
    assert(docs.take(n) =~= docs);
    if n == lines.len() {
        assert(lines.take(n) =~= lines);
    } else if record::decoded(lines[n], numbers[n]) is Err {
        assert(lines.take(n + 1).drop_last() =~= lines.take(n));
        local::lemma_loaded_fault(lines, numbers, n + 1);
    }
}

proof fn lemma_loaded_prefix(
    lines: Seq<Seq<char>>,
    numbers: Seq<NumbersView>,
    docs: Seq<DocumentView>,
    n: int,
)
    requires
        0 <= n <= docs.len() <= lines.len() == numbers.len(),
        forall|i: int|
            0 <= i < docs.len() ==> record::decoded(#[trigger] lines[i], numbers[i]) == Ok::<
                DocumentView,
                Seq<char>,
            >(docs[i]),
    ensures
        local::loaded(lines.take(n), numbers) == Ok::<Map<Seq<char>, DocumentView>, Seq<char>>(
            local::merged(Map::empty(), docs.take(n)),
        ),
    decreases n,
{
    if n > 0 {
        lemma_loaded_prefix(lines, numbers, docs, n - 1);
        assert(lines.take(n).drop_last() =~= lines.take(n - 1));
        assert(docs.take(n).drop_last() =~= docs.take(n - 1));
        assert(record::decoded(lines[n - 1], numbers[n - 1]) == Ok::<DocumentView, Seq<char>>(
            docs[n - 1],
        ));
    }
}

/// The file of documents holds the row of each document, in the dictionary order of their
/// identifiers, one after another.
pub proof fn law_rows_in_order(
    map: Map<Seq<char>, DocumentView>,
    figures: Seq<FiguresView>,
    n: nat,
)
    requires
        map.dom().finite(),
        forall|id: Seq<char>| #[trigger] map.contains_key(id) ==> map[id].id == id,
    ensures
        ({
            let docs = local::documents_of(map);
            &&& forall|i: int, j: int|
                0 <= i < j < docs.len() ==> ordered::precedes(
                    (#[trigger] docs[i]).id,
                    (#[trigger] docs[j]).id,
                )
            &&& forall|i: int|
                0 <= i < docs.len() ==> map.contains_key((#[trigger] docs[i]).id)
                    && map[docs[i].id] == docs[i]
            &&& forall|id: Seq<char>| #[trigger]
                map.contains_key(id) ==> docs.contains(map[id])
            &&& local::rows_text(docs, figures, 0) == Seq::<char>::empty()
            &&& local::rows_text(docs, figures, n + 1) == local::rows_text(docs, figures, n)
                + record::row_of(docs[n as int], figures[n as int].numerals)
        }),
{
    let docs = local::documents_of(map);
    let keys = ordered::ordered_keys(map.dom());
    ordered::lemma_ordered_keys(map.dom());
    assert forall|i: int| 0 <= i < docs.len() implies map.contains_key((#[trigger] docs[i]).id)
        && map[docs[i].id] == docs[i] && docs[i].id == keys[i] by {
        assert(keys.contains(keys[i]));
        assert(map.dom().contains(keys[i]));
        assert(map.contains_key(keys[i]));
    }
    assert forall|i: int, j: int| 0 <= i < j < docs.len() implies ordered::precedes(
        (#[trigger] docs[i]).id,
        (#[trigger] docs[j]).id,
    ) by {
        assert(ordered::precedes(keys[i], keys[j]));
    }
    assert forall|id: Seq<char>| #[trigger] map.contains_key(id) implies docs.contains(map[id]) by {
        assert(map.dom().contains(id));
        assert(keys.contains(id));
        let k = choose|k: int| 0 <= k < keys.len() && keys[k] == id;
        assert(docs[k] == map[id]);
    }
}

/// One text comes before another in dictionary order where, after what they have in common, it ends
/// or has the character with the smaller number.
pub proof fn law_dictionary_order(
    common: Seq<char>,
    a: char,
    x: Seq<char>,
    b: char,
    y: Seq<char>,
)
    ensures
        ordered::precedes(common + (seq![a] + x), common + (seq![b] + y)) <==> (a as int) < (
        b as int) || (a == b && ordered::precedes(x, y)),
        ordered::precedes(common, common + (seq![b] + y)),
        !ordered::precedes(common + (seq![a] + x), common),
        !ordered::precedes(common, common),
    decreases common.len(),
{
    let (p, q) = (seq![a] + x, seq![b] + y);
    if common.len() == 0 {
        assert(common + p =~= p);
        assert(common + q =~= q);
        assert(p.drop_first() =~= x);
        assert(q.drop_first() =~= y);
    } else {
        let rest = common.drop_first();
        law_dictionary_order(rest, a, x, b, y);
        assert((common + p).drop_first() =~= rest + p);
        assert((common + q).drop_first() =~= rest + q);
    }
}

/// The file that tells what an index is made for has three lines: the country, the languages and the
/// layers, with commas between languages and between layers.
pub proof fn law_schema_lines(
    country_code: Seq<char>,
    languages: Seq<Seq<char>>,
    layers: Seq<Seq<char>>,
)
    ensures
        text::terminated(local::schema_lines(country_code, languages, layers)) == "country_code="@
            + country_code + seq!['\n'] + "languages="@ + text::join(languages, seq![',']) + seq![
            '\n',
        ] + "layers="@ + text::join(layers, seq![',']) + seq!['\n'],
{
    let lines = local::schema_lines(country_code, languages, layers);
    let none = Seq::<Seq<char>>::empty();
    assert(lines.drop_last().drop_last().drop_last() =~= none);
    assert(text::terminated(lines.drop_last().drop_last().drop_last()) =~= Seq::<char>::empty());
    assert(text::terminated(lines.drop_last().drop_last()) =~= "country_code="@ + country_code
        + seq!['\n']);
    assert(text::terminated(lines.drop_last()) =~= "country_code="@ + country_code + seq!['\n']
        + "languages="@ + text::join(languages, seq![',']) + seq!['\n']);
    assert(text::terminated(lines) =~= "country_code="@ + country_code + seq!['\n'] + "languages="@
        + text::join(languages, seq![',']) + seq!['\n'] + "layers="@ + text::join(
        layers,
        seq![','],
    ) + seq!['\n']);
}

/// The file of an index has a line for each key in dictionary order: the escaped key, a tab, and the
/// offsets in decimal notation with commas between them.
pub proof fn law_lines_of_index(index: Map<Seq<char>, Seq<u64>>)
    ensures
        index_file::index_text(index) == text::terminated(
            ordered::ordered_keys(index.dom()).map_values(
                |key: Seq<char>|
                    record::escaped(key) + seq!['\t'] + text::join(
                        index[key].map_values(|offset: u64| decimal::digits(offset as nat)),
                        seq![','],
                    ),
            ),
        ),
{
    let keys = ordered::ordered_keys(index.dom());
    let lines = keys.map_values(
        |key: Seq<char>|
            record::escaped(key) + seq!['\t'] + text::join(
                index[key].map_values(|offset: u64| decimal::digits(offset as nat)),
                seq![','],
            ),
    );
    let written = index_file::index_lines(keys, index);
    assert forall|i: int| 0 <= i < keys.len() implies #[trigger] written[i] == lines[i] by {
        let list = index[keys[i]];
        assert(index_file::numerals(list) =~= list.map_values(
            |offset: u64| decimal::digits(offset as nat),
        ));
        assert(written[i] =~= lines[i]);
    }
    assert(written =~= lines);
}

/// A line of an index file gives what follows its first tab as the offsets of the unescaped text
/// before the tab, in place of any that an earlier line gave; a line without a tab gives nothing.
pub proof fn law_line_of_index(lines: Seq<Seq<char>>, line: Seq<char>)
    ensures
        index_file::index_of(Seq::<Seq<char>>::empty()) == Map::<Seq<char>, Seq<u64>>::empty(),
        ({
            let before = index_file::index_of(lines);
            index_file::index_of(lines.push(line)) == match text::cut_at(line, '\t') {
                Some((key, list)) => before.insert(
                    record::unescaped(key),
                    index_file::listed(text::pieces(list, CharSet::Only(','))),
                ),
                None => before,
            }
        }),
{
    assert(lines.push(line).drop_last() =~= lines);
}

/// The offsets of a list are the numbers that its parts write, in rising order and each once; parts
/// that write none are passed over.
pub proof fn law_listed_offsets(parts: Seq<Seq<char>>, x: u64)
    ensures
        index_file::listed(parts).contains(x) <==> exists|i: int|
            0 <= i < parts.len() && decimal::number(#[trigger] parts[i], u64::MAX as nat) == Ok::<
                nat,
                NumberFault,
            >(x as nat),
        forall|i: int, j: int|
            0 <= i < j < index_file::listed(parts).len() ==> #[trigger] index_file::listed(parts)[i]
                < #[trigger] index_file::listed(parts)[j],
    decreases parts.len(),
{
    index_file::lemma_listed(parts);
    if parts.len() > 0 {
        let front = parts.drop_last();
        let last = parts[parts.len() - 1];
        law_listed_offsets(front, x);
        index_file::lemma_listed(front);
        if exists|i: int|
            0 <= i < front.len() && decimal::number(#[trigger] front[i], u64::MAX as nat) == Ok::<
                nat,
                NumberFault,
            >(x as nat) {
            let i = choose|i: int|
                0 <= i < front.len() && decimal::number(#[trigger] front[i], u64::MAX as nat)
                    == Ok::<nat, NumberFault>(x as nat);
            assert(parts[i] == front[i]);
        }
        if exists|i: int|
            0 <= i < parts.len() && decimal::number(#[trigger] parts[i], u64::MAX as nat) == Ok::<
                nat,
                NumberFault,
            >(x as nat) {
            let i = choose|i: int|
                0 <= i < parts.len() && decimal::number(#[trigger] parts[i], u64::MAX as nat)
                    == Ok::<nat, NumberFault>(x as nat);
            if i < front.len() {
                assert(front[i] == parts[i]);
            }
        }
        match decimal::number(last, u64::MAX as nat) {
            Ok(offset) => {
                decimal::lemma_number_bound(last, u64::MAX as nat);
                offsets::lemma_with_offset(index_file::listed(front), offset as u64);
                if offset == x {
                    assert(decimal::number(parts[parts.len() - 1], u64::MAX as nat) == Ok::<
                        nat,
                        NumberFault,
                    >(x as nat));
                }
            },
            Err(_) => {},
        }
    }
}

/// A row that was read loses all line feeds at its end, and nothing else.
pub proof fn law_line_of_row(row: Seq<char>)
    ensures
        record::row_line(row.push('\n')) == record::row_line(row),
        row.len() == 0 || row.last() != '\n' ==> record::row_line(row) == row,
{
    assert(row.push('\n').drop_last() =~= row);
}

/// The names of the four files of an index.
pub proof fn law_names_of_files()
    ensures
        local::DOCS_FILE@ == "docs.tsv"@,
        local::TERMS_FILE@ == "terms.tsv"@,
        local::CELLS_FILE@ == "cells.tsv"@,
        local::SCHEMA_FILE@ == "schema.txt"@,
{
}

} // verus!
