//! What lines of comma-separated values hold, and what documents they describe.
use vstd::prelude::*;

use crate::config::ConfigView;
use crate::csv;
use crate::document::{AddressView, DocumentView, HierarchyView};
use crate::float::Float32;
use crate::record::NumbersView;
use crate::text;
use crate::text::CharSet;

verus! {

/// Text without commas and quotation marks goes on with the value that is being read.
proof fn lemma_plain(a: Seq<char>, t: Seq<char>, current: Seq<char>)
    requires
        forall|i: int| 0 <= i < a.len() ==> #[trigger] a[i] != ',' && a[i] != '"',
    ensures
        csv::values_after(a + t, false, current) == csv::values_after(t, false, current + a),
    decreases a.len(),
{
    if a.len() == 0 {
        assert(a + t =~= t);
        assert(current + a =~= current);
    } else {
        let rest = a.drop_first();
        assert forall|i: int| 0 <= i < rest.len() implies #[trigger] rest[i] != ',' && rest[i]
            != '"' by {
            assert(rest[i] == a[i + 1]);
        }
        lemma_plain(rest, t, current.push(a[0]));
        assert((a + t)[0] == a[0]);
        assert((a + t).skip(1) =~= rest + t);
        assert(current.push(a[0]) + rest =~= current + a);
    }
}

/// A comma outside quotation marks ends a value, which loses the white space at its ends; a value
/// without quotation marks is what stands between commas.
pub proof fn law_plain_values(a: Seq<char>, rest: Seq<char>)
    requires
        forall|i: int| 0 <= i < a.len() ==> #[trigger] a[i] != ',' && a[i] != '"',
    ensures
        csv::values_of(a) == seq![text::trim(a)],
        csv::values_of(a.push(',') + rest) == seq![text::trim(a)] + csv::values_of(rest),
{
    let none = Seq::<char>::empty();
    lemma_plain(a, none, none);
    assert(a + none =~= a);
    assert(none + a =~= a);
    let t = seq![','] + rest;
    lemma_plain(a, t, none);
    assert(a + t =~= a.push(',') + rest);
    assert(t.skip(1) =~= rest);
}

/// Quotation marks may enclose any part of a value: what they enclose belongs to it, with each pair
/// of quotation marks in it standing for one, and commas in it divide nothing.
pub proof fn law_quotation_marks(a: Seq<char>, v: Seq<char>, b: Seq<char>, rest: Seq<char>)
    requires
        forall|i: int| 0 <= i < a.len() ==> #[trigger] a[i] != ',' && a[i] != '"',
        forall|i: int| 0 <= i < b.len() ==> #[trigger] b[i] != ',' && b[i] != '"',
    ensures
        ({
            let value = a.push('"') + csv::doubled(v).push('"') + b;
            &&& csv::values_of(value) == seq![text::trim(a + v + b)]
            &&& csv::values_of(value.push(',') + rest) == seq![text::trim(a + v + b)]
                + csv::values_of(rest)
        }),
        csv::doubled(a) == a,
        csv::doubled(seq!['"'] + v) == seq!['"', '"'] + csv::doubled(v),
        csv::doubled(a + v) == a + csv::doubled(v),
{
    let value = a.push('"') + csv::doubled(v).push('"') + b;
    let none = Seq::<char>::empty();
    let t = seq![','] + rest;
    lemma_quoted(a, v, b, none);
    lemma_quoted(a, v, b, t);
    assert(value + none =~= value);
    assert(value.push(',') + rest =~= value + t);
    assert(t.skip(1) =~= rest);
    lemma_doubled_plain(a, none);
    lemma_doubled_plain(a, v);
    assert(a + none =~= a);
    assert(csv::doubled(none) =~= none);
    assert((seq!['"'] + v).drop_first() =~= v);
}

proof fn lemma_quoted(a: Seq<char>, v: Seq<char>, b: Seq<char>, t: Seq<char>)
    requires
        forall|i: int| 0 <= i < a.len() ==> #[trigger] a[i] != ',' && a[i] != '"',
        forall|i: int| 0 <= i < b.len() ==> #[trigger] b[i] != ',' && b[i] != '"',
        t.len() > 0 ==> t[0] == ',',
    ensures
        csv::values_of(a.push('"') + csv::doubled(v).push('"') + b + t) == csv::values_after(
            t,
            false,
            a + v + b,
        ),
{
    let none = Seq::<char>::empty();
    let after = b + t;
    let inner = csv::doubled(v) + (seq!['"'] + after);
    let quoted = seq!['"'] + inner;
    let line = a.push('"') + csv::doubled(v).push('"') + b + t;
    assert(line =~= a + quoted);
    lemma_plain(a, quoted, none);
    assert(none + a =~= a);
    assert(quoted.skip(1) =~= inner);
    assert(quoted[0] == '"');
    if after.len() > 0 {
        if b.len() > 0 {
            assert(after[0] == b[0]);
        } else {
            assert(after[0] == t[0]);
        }
    }
    csv::lemma_doubled(v, after, a);
    lemma_plain(b, t, a + v);
}

proof fn lemma_doubled_plain(a: Seq<char>, v: Seq<char>)
    requires
        forall|i: int| 0 <= i < a.len() ==> #[trigger] a[i] != ',' && a[i] != '"',
    ensures
        csv::doubled(a + v) == a + csv::doubled(v),
    decreases a.len(),
{
    if a.len() == 0 {
        assert(a + v =~= v);
        assert(a + csv::doubled(v) =~= csv::doubled(v));
    } else {
        let rest = a.drop_first();
        assert forall|i: int| 0 <= i < rest.len() implies #[trigger] rest[i] != ',' && rest[i]
            != '"' by {
            assert(rest[i] == a[i + 1]);
        }
        lemma_doubled_plain(rest, v);
        assert((a + v).drop_first() =~= rest + v);
        assert((a + v)[0] == a[0]);
        assert(csv::doubled(a + v) =~= a + csv::doubled(v));
    }
}

proof fn lemma_row(headers: Seq<Seq<char>>, values: Seq<Seq<char>>, n: nat, key: Seq<char>)
    ensures
        csv::row_of(headers, values, n).contains_key(key) <==> exists|i: int|
            0 <= i < n && #[trigger] headers[i] == key,
        forall|i: int|
            0 <= i < n && #[trigger] headers[i] == key && (forall|j: int|
                i < j < n ==> #[trigger] headers[j] != key) ==> csv::row_of(
                headers,
                values,
                n,
            )[key] == values[i],
    decreases n,
{
    if n > 0 {
        let m = (n - 1) as nat;
        lemma_row(headers, values, m, key);
        let before = csv::row_of(headers, values, m);
        let all = csv::row_of(headers, values, n);
        assert(all == before.insert(headers[n - 1], values[n - 1]));
        if exists|i: int| 0 <= i < n && #[trigger] headers[i] == key {
            let i = choose|i: int| 0 <= i < n && #[trigger] headers[i] == key;
            if i < m {
                assert(headers[i] == key);
                assert(before.contains_key(key));
            }
            assert(all.contains_key(key));
        }
        if all.contains_key(key) && headers[n - 1] != key {
            assert(before.contains_key(key));
        }
        assert forall|i: int|
            0 <= i < n && #[trigger] headers[i] == key && (forall|j: int|
                i < j < n ==> #[trigger] headers[j] != key) implies all[key] == values[i] by {
            if i < m {
                assert(headers[n - 1] != key);
                assert forall|j: int| i < j < m implies #[trigger] headers[j] != key by {
                }
                assert(before.contains_key(key));
            }
        }
    }
}

/// The row of a line has the headers that a value stands under, as long as there are headers and
/// values; of headers that are the same the last counts.
pub proof fn law_row_of_line(headers: Seq<Seq<char>>, line: Seq<char>, key: Seq<char>)
    ensures
        ({
            let row = csv::row_of_line(headers, line);
            let values = csv::values_of(line);
            &&& row.contains_key(key) <==> exists|i: int|
                0 <= i < headers.len() && i < values.len() && #[trigger] headers[i] == key
            &&& forall|i: int|
                0 <= i < headers.len() && i < values.len() && #[trigger] headers[i] == key && (
                forall|j: int|
                    i < j < headers.len() && j < values.len() ==> #[trigger] headers[j] != key)
                    ==> row[key] == values[i]
        }),
{
    let values = csv::values_of(line);
    let n = csv::shorter(headers, values);
    lemma_row(headers, values, n, key);
    let row = csv::row_of_line(headers, line);
    assert forall|i: int|
        0 <= i < headers.len() && i < values.len() && #[trigger] headers[i] == key && (forall|j: int|
            i < j < headers.len() && j < values.len() ==> #[trigger] headers[j] != key) implies
        row[key] == values[i] by {
        assert(i < n);
        assert forall|j: int| i < j < n implies #[trigger] headers[j] != key by {
        }
    }
}

/// The document of a row: what each of its columns gives where it is not blank, and what stands in
/// for it. The identifier, the name and the two coordinates have to be there, and the first of them
/// that is not is reported by its name.
pub proof fn law_document_of_row(
    row: Map<Seq<char>, Seq<char>>,
    config: ConfigView,
    numbers: NumbersView,
)
    ensures
        ({
            let given = |key: Seq<char>| row.contains_key(key) && text::trim(row[key]).len() > 0;
            let optional = |key: Seq<char>|
                if row.contains_key(key) && text::trim(row[key]).len() > 0 {
                    Some(row[key])
                } else {
                    None
                };
            let or = |key: Seq<char>, other: Seq<char>|
                if row.contains_key(key) && text::trim(row[key]).len() > 0 {
                    row[key]
                } else {
                    other
                };
            let none = Seq::<char>::empty();
            let missing = |key: Seq<char>|
                Err::<DocumentView, Seq<char>>("missing required CSV column "@ + key);
            let document = csv::row_document(row, config, numbers);
            if !given("id"@) {
                document == missing("id"@)
            } else if !given("name"@) {
                document == missing("name"@)
            } else if !given("lat"@) {
                document == missing("lat"@)
            } else if numbers.latitude is Err {
                document == Err::<DocumentView, Seq<char>>(numbers.latitude->Err_0)
            } else if !given("lon"@) {
                document == missing("lon"@)
            } else if numbers.longitude is Err {
                document == Err::<DocumentView, Seq<char>>(numbers.longitude->Err_0)
            } else {
                document == Ok::<DocumentView, Seq<char>>(
                    (DocumentView {
                        id: row["id"@],
                        source: or("source"@, "csv"@),
                        layer: or("layer"@, "venue"@),
                        name: row["name"@],
                        label: or("label"@, none),
                        country_code: config.country_code,
                        latitude: numbers.latitude->Ok_0,
                        longitude: numbers.longitude->Ok_0,
                        admin_hierarchy: HierarchyView {
                            country: Some(or("country"@, config.country_name)),
                            region: optional("region"@),
                            county: optional("county"@),
                            locality: optional("locality"@),
                            neighbourhood: optional("neighbourhood"@),
                        },
                        address: AddressView {
                            house_number: optional("house_number"@),
                            street: optional("street"@),
                            postal_code: optional("postal_code"@),
                        },
                        aliases: text::pieces(or("aliases"@, none), CharSet::Only('|')).map_values(
                            |alias: Seq<char>| text::trim(alias),
                        ).filter(|alias: Seq<char>| alias.len() > 0),
                        popularity: if given("popularity"@) && numbers.popularity is Ok {
                            numbers.popularity->Ok_0
                        } else {
                            Float32 { bits: 0 }
                        },
                    }).labelled(),
                )
            }
        }),
{
    let trim = |alias: Seq<char>| text::trim(alias);
    let kept = |alias: Seq<char>| alias.len() > 0;
    assert(kept =~= text::filled());
    assert(trim =~= (|value: Seq<char>| text::trim(value)));
}

/// Quotation marks around text without commas and quotation marks change nothing, wherever they
/// stand after plain text.
pub proof fn law_needless_quotation_marks(a: Seq<char>, v: Seq<char>, rest: Seq<char>)
    requires
        forall|i: int| 0 <= i < a.len() ==> #[trigger] a[i] != ',' && a[i] != '"',
        forall|i: int| 0 <= i < v.len() ==> #[trigger] v[i] != ',' && v[i] != '"',
        rest.len() > 0 ==> rest[0] != '"',
    ensures
        csv::values_of(a.push('"') + v.push('"') + rest) == csv::values_of(a + v + rest),
{
    let none = Seq::<char>::empty();
    lemma_doubled_plain(v, none);
    assert(v + none =~= v);
    assert(csv::doubled(none) =~= none);
    let inner = csv::doubled(v) + (seq!['"'] + rest);
    let quoted = seq!['"'] + inner;
    assert(a.push('"') + v.push('"') + rest =~= a + quoted);
    assert(a + v + rest =~= a + (v + rest));
    lemma_plain(a, quoted, none);
    lemma_plain(a, v + rest, none);
    assert(none + a =~= a);
    assert(quoted.skip(1) =~= inner);
    csv::lemma_doubled(v, rest, a);
    lemma_plain(v, rest, a);
}

/// Quotation marks that are not closed enclose the rest of the line.
pub proof fn law_open_quotation_marks(a: Seq<char>, v: Seq<char>)
    requires
        forall|i: int| 0 <= i < a.len() ==> #[trigger] a[i] != ',' && a[i] != '"',
    ensures
        csv::values_of(a.push('"') + csv::doubled(v)) == seq![text::trim(a + v)],
{
    let none = Seq::<char>::empty();
    let quoted = seq!['"'] + csv::doubled(v);
    assert(a.push('"') + csv::doubled(v) =~= a + quoted);
    lemma_plain(a, quoted, none);
    assert(none + a =~= a);
    assert(quoted.skip(1) =~= csv::doubled(v));
    lemma_open(v, a);
}

proof fn lemma_open(v: Seq<char>, current: Seq<char>)
    ensures
        csv::values_after(csv::doubled(v), true, current) == seq![text::trim(current + v)],
    decreases v.len(),
{
    let s = csv::doubled(v);
    if v.len() == 0 {
        assert(current + v =~= current);
    } else {
        let rest = v.drop_first();
        lemma_open(rest, current.push(v[0]));
        assert(current.push(v[0]) + rest =~= current + v);
        if v[0] == '"' {
            assert(s[0] == '"' && s[1] == '"');
            assert(s.skip(2) =~= csv::doubled(rest));
        } else {
            assert(s[0] == v[0]);
            assert(s.skip(1) =~= csv::doubled(rest));
        }
    }
}

} // verus!
