//! What the labels of documents are, and which terms documents are found by.
use vstd::prelude::*;

use crate::document;
use crate::document::DocumentView;
use crate::local;
use crate::local::FiguresView;
use crate::local_laws;
use crate::offsets;
use crate::postings;
use crate::terms;
use crate::text;
use crate::text::CharSet;
use crate::text_laws;

verus! {

/// What an optional value shows: the value trimmed, unless it is missing or blank.
proof fn lemma_shown_one(value: Option<Seq<char>>)
    ensures
        document::shown(document::present(value)) == if value is Some && text::trim(value->0).len()
            > 0 {
            seq![text::trim(value->0)]
        } else {
            Seq::<Seq<char>>::empty()
        },
{
    let trims = document::present(value).map_values(|v: Seq<char>| text::trim(v));
    reveal(Seq::filter);
    if value is Some {
        assert(trims =~= seq![text::trim(value->0)]);
        assert(trims.drop_last() =~= Seq::<Seq<char>>::empty());
        assert(trims.drop_last().filter(text::filled()) =~= Seq::<Seq<char>>::empty());
        if text::trim(value->0).len() > 0 {
            assert(trims.filter(text::filled()) =~= seq![text::trim(value->0)]);
        } else {
            assert(trims.filter(text::filled()) =~= Seq::<Seq<char>>::empty());
        }
    } else {
        assert(trims.filter(text::filled()) =~= Seq::<Seq<char>>::empty());
    }
}

/// Showing one value more adds it, with a separator where something is shown before it.
proof fn lemma_join_one_more(
    values: Seq<Seq<char>>,
    value: Option<Seq<char>>,
    separator: Seq<char>,
)
    ensures
        ({
            let before = text::join(document::shown(values), separator);
            text::join(document::shown(values + document::present(value)), separator) == if value
                is None || text::trim(value->0).len() == 0 {
                before
            } else if before.len() == 0 {
                text::trim(value->0)
            } else {
                before + separator + text::trim(value->0)
            }
        }),
{
    let parts = document::shown(values);
    document::lemma_shown_add(values, document::present(value));
    lemma_shown_one(value);
    if value is Some && text::trim(value->0).len() > 0 {
        let part = text::trim(value->0);
        text_laws::law_joining(parts, part, separator);
        assert(parts + seq![part] =~= parts.push(part));
        if parts.len() > 0 {
            let trims = values.map_values(|v: Seq<char>| text::trim(v));
            trims.lemma_filter_pred(text::filled(), 0);
            text::lemma_join_begins(parts, separator);
        } else {
            assert(parts.push(part) =~= seq![part]);
            assert(parts =~= Seq::<Seq<char>>::empty());
        }
    } else {
        assert(parts + Seq::<Seq<char>>::empty() =~= parts);
    }
}

/// A document whose own label is blank is labelled by its name, its locality, its region and its
/// country, trimmed, with a comma and a space between neighbours; a part that is missing or blank is
/// left out together with its separator. A label that is not blank stays, and nothing else of the
/// document changes.
pub proof fn law_label_of_parts(document: DocumentView)
    ensures
        text::trim(document.label).len() > 0 ==> document.labelled() == document,
        document.labelled() == (DocumentView { label: document.labelled().label, ..document }),
        text::trim(document.label).len() == 0 ==> ({
            let with = |label: Seq<char>, part: Option<Seq<char>>|
                if part is None || text::trim(part->0).len() == 0 {
                    label
                } else if label.len() == 0 {
                    text::trim(part->0)
                } else {
                    label + seq![',', ' '] + text::trim(part->0)
                };
            let areas = document.admin_hierarchy;
            document.labelled().label == with(
                with(with(text::trim(document.name), areas.locality), areas.region),
                areas.country,
            )
        }),
{
    if text::trim(document.label).len() == 0 {
        let areas = document.admin_hierarchy;
        let separator = seq![',', ' '];
        let none = Seq::<Seq<char>>::empty();
        let first = none + document::present(Some(document.name));
        lemma_shown_one(None);
        assert(document::present(None) =~= none);
        text_laws::law_joining(none, Seq::<char>::empty(), separator);
        lemma_join_one_more(none, Some(document.name), separator);
        assert(first =~= seq![document.name]);
        lemma_join_one_more(first, areas.locality, separator);
        lemma_join_one_more(first + document::present(areas.locality), areas.region, separator);
        lemma_join_one_more(
            first + document::present(areas.locality) + document::present(areas.region),
            areas.country,
            separator,
        );
        if text::trim(document.name).len() == 0 {
            assert(text::trim(document.name) =~= Seq::<char>::empty());
        }
    }
}

/// Where the name, the locality, the region and the country are all given, the label that they make
/// is all four of them.
pub proof fn law_label_of_four_parts(
    document: DocumentView,
    locality: Seq<char>,
    region: Seq<char>,
    country: Seq<char>,
)
    requires
        text::trim(document.label).len() == 0,
        document.admin_hierarchy.locality == Some(locality),
        document.admin_hierarchy.region == Some(region),
        document.admin_hierarchy.country == Some(country),
        text::trim(document.name).len() > 0,
        text::trim(locality).len() > 0,
        text::trim(region).len() > 0,
        text::trim(country).len() > 0,
    ensures
        document.labelled().label == text::trim(document.name) + seq![',', ' '] + text::trim(
            locality,
        ) + seq![',', ' '] + text::trim(region) + seq![',', ' '] + text::trim(country),
{
    law_label_of_parts(document);
}

/// White space before or after a text adds no term.
proof fn lemma_terms_of_spaces(s: Seq<char>, t: Seq<char>)
    requires
        forall|i: int| 0 <= i < s.len() ==> text::is_space(#[trigger] s[i]),
    ensures
        terms::terms_of(s + t) == terms::terms_of(t),
        terms::terms_of(t + s) == terms::terms_of(t),
    decreases s.len(),
{
    let none = Seq::<char>::empty();
    if s.len() == 0 {
        assert(s + t =~= t);
        assert(t + s =~= t);
    } else {
        let c = s[0];
        let (tail, front) = (s.drop_first(), s.drop_last());
        assert forall|i: int| 0 <= i < tail.len() implies text::is_space(#[trigger] tail[i]) by {
            assert(tail[i] == s[i + 1]);
        }
        lemma_terms_of_spaces(tail, t);
        assert(s + t =~= none.push(c) + (tail + t));
        assert(t + s =~= t.push(c) + tail);
        lemma_space_divides(none, c, tail + t);
        lemma_space_divides(t, c, tail);
        lemma_terms_of_spaces(tail, none);
        assert(tail + none =~= tail);
        lemma_no_terms();
        assert(Seq::<Seq<char>>::empty() + terms::terms_of(tail + t) =~= terms::terms_of(
            tail + t,
        ));
        assert(terms::terms_of(t) + Seq::<Seq<char>>::empty() =~= terms::terms_of(t));
    }
}

proof fn lemma_no_terms()
    ensures
        terms::terms_of(Seq::<char>::empty()) == Seq::<Seq<char>>::empty(),
{
    assert(Seq::<char>::empty().map_values(|c: char| terms::normal(c)) =~= Seq::<char>::empty());
    text::lemma_no_words();
}

proof fn lemma_space_divides(a: Seq<char>, c: char, b: Seq<char>)
    requires
        text::is_space(c),
    ensures
        terms::terms_of(a.push(c) + b) == terms::terms_of(a) + terms::terms_of(b),
{
    let f = |c: char| terms::normal(c);
    assert(terms::normal(c) == ' ');
    assert((a.push(c) + b).map_values(f) =~= a.map_values(f).push(' ') + b.map_values(f));
    text_laws::law_words(a.map_values(f), ' ', b.map_values(f));
}

proof fn lemma_terms_of_trimmed(s: Seq<char>)
    ensures
        terms::terms_of(text::trim(s)) == terms::terms_of(s),
{
    let kept = text::trim(s);
    text_laws::law_trimming(s, CharSet::Space);
    let (before, after) = choose|before: Seq<char>, after: Seq<char>|
        #![trigger before + text::trim_set(s, CharSet::Space) + after]
        {
            let kept = text::trim_set(s, CharSet::Space);
            &&& s == before + kept + after
            &&& forall|i: int| 0 <= i < before.len() ==> CharSet::Space.has(#[trigger] before[i])
            &&& forall|i: int| 0 <= i < after.len() ==> CharSet::Space.has(#[trigger] after[i])
            &&& kept.len() > 0 ==> !CharSet::Space.has(kept[0]) && !CharSet::Space.has(kept.last())
            &&& kept.len() == 0 ==> after.len() == 0 || before.len() == 0
        };
    assert forall|i: int| 0 <= i < before.len() implies text::is_space(#[trigger] before[i]) by {
        assert(CharSet::Space.has(before[i]));
    }
    assert forall|i: int| 0 <= i < after.len() implies text::is_space(#[trigger] after[i]) by {
        assert(CharSet::Space.has(after[i]));
    }
    lemma_terms_of_spaces(before, kept);
    lemma_terms_of_spaces(after, before + kept);
}

/// Showing one value more adds its terms.
proof fn lemma_terms_one_more(values: Seq<Seq<char>>, value: Option<Seq<char>>)
    ensures
        terms::terms_of(
            text::join(document::shown(values + document::present(value)), seq![' ']),
        ) == terms::terms_of(text::join(document::shown(values), seq![' '])) + if value is Some {
            terms::terms_of(value->0)
        } else {
            Seq::<Seq<char>>::empty()
        },
{
    let separator = seq![' '];
    let before = text::join(document::shown(values), separator);
    let none = Seq::<Seq<char>>::empty();
    lemma_join_one_more(values, value, separator);
    lemma_no_terms();
    if value is Some {
        let part = text::trim(value->0);
        lemma_terms_of_trimmed(value->0);
        if part.len() == 0 {
            assert(part =~= Seq::<char>::empty());
            assert(terms::terms_of(before) + none =~= terms::terms_of(before));
        } else if before.len() == 0 {
            assert(before =~= Seq::<char>::empty());
            assert(none + terms::terms_of(part) =~= terms::terms_of(part));
        } else {
            assert(before + separator + part =~= before.push(' ') + part);
            lemma_space_divides(before, ' ', part);
        }
    } else {
        assert(terms::terms_of(before) + none =~= terms::terms_of(before));
    }
}

/// The terms of the name, the label and the first `n` aliases.
proof fn lemma_terms_of_aliases(document: DocumentView, n: int, term: Seq<char>)
    requires
        0 <= n <= document.aliases.len(),
    ensures
        terms::terms_of(
            text::join(
                document::shown(
                    seq![document.name, document.label] + document.aliases.take(n),
                ),
                seq![' '],
            ),
        ).contains(term) <==> terms::terms_of(document.name).contains(term) || terms::terms_of(
            document.label,
        ).contains(term) || exists|i: int|
            0 <= i < n && terms::terms_of(#[trigger] document.aliases[i]).contains(term),
    decreases n,
{
    let none = Seq::<Seq<char>>::empty();
    if n == 0 {
        let first = none + document::present(Some(document.name));
        let both = first + document::present(Some(document.label));
        lemma_terms_one_more(none, Some(document.name));
        lemma_terms_one_more(first, Some(document.label));
        assert(both =~= seq![document.name, document.label] + document.aliases.take(0));
        lemma_shown_one(None);
        assert(document::present(None) =~= none);
        text_laws::law_joining(none, Seq::<char>::empty(), seq![' ']);
        lemma_no_terms();
        let a = terms::terms_of(document.name);
        let b = terms::terms_of(document.label);
        assert(none + a =~= a);
        lemma_contains_add(a, b, term);
    } else {
        let alias = document.aliases[n - 1];
        let values = seq![document.name, document.label] + document.aliases.take(n - 1);
        lemma_terms_of_aliases(document, n - 1, term);
        lemma_terms_one_more(values, Some(alias));
        assert(values + document::present(Some(alias)) =~= seq![document.name, document.label]
            + document.aliases.take(n));
        lemma_contains_add(
            terms::terms_of(text::join(document::shown(values), seq![' '])),
            terms::terms_of(alias),
            term,
        );
        if terms::terms_of(alias).contains(term) {
            assert(terms::terms_of(document.aliases[n - 1]).contains(term));
        }
        if exists|i: int|
            0 <= i < n && terms::terms_of(#[trigger] document.aliases[i]).contains(term) {
            let i = choose|i: int|
                0 <= i < n && terms::terms_of(#[trigger] document.aliases[i]).contains(term);
            assert(i < n - 1 || i == n - 1);
        }
    }
}

proof fn lemma_contains_add(a: Seq<Seq<char>>, b: Seq<Seq<char>>, term: Seq<char>)
    ensures
        (a + b).contains(term) <==> a.contains(term) || b.contains(term),
{
    if a.contains(term) {
        let i = choose|i: int| 0 <= i < a.len() && a[i] == term;
        assert((a + b)[i] == term);
    }
    if b.contains(term) {
        let i = choose|i: int| 0 <= i < b.len() && b[i] == term;
        assert((a + b)[a.len() + i] == term);
    }
    if (a + b).contains(term) {
        let i = choose|i: int| 0 <= i < (a + b).len() && (a + b)[i] == term;
        if i < a.len() {
            assert(a[i] == term);
        } else {
            assert(b[i - a.len()] == term);
        }
    }
}

proof fn lemma_optional_terms(values: Seq<Seq<char>>, value: Option<Seq<char>>, term: Seq<char>)
    ensures
        terms::terms_of(
            text::join(document::shown(values + document::present(value)), seq![' ']),
        ).contains(term) <==> terms::terms_of(
            text::join(document::shown(values), seq![' ']),
        ).contains(term) || (value is Some && terms::terms_of(value->0).contains(term)),
{
    lemma_terms_one_more(values, value);
    lemma_contains_add(
        terms::terms_of(text::join(document::shown(values), seq![' '])),
        if value is Some {
            terms::terms_of(value->0)
        } else {
            Seq::<Seq<char>>::empty()
        },
        term,
    );
}

/// A document is found by the terms of its name, of its label, of its aliases, of its house number
/// and street, and of the areas that hold it, and by no other.
pub proof fn law_terms_of_document(document: DocumentView, term: Seq<char>)
    ensures
        local::document_terms(document).contains(term) <==> ({
            let areas = document.admin_hierarchy;
            let address = document.address;
            ||| terms::terms_of(document.name).contains(term)
            ||| terms::terms_of(document.label).contains(term)
            ||| exists|i: int|
                0 <= i < document.aliases.len() && terms::terms_of(
                    #[trigger] document.aliases[i],
                ).contains(term)
            ||| address.house_number is Some && terms::terms_of(address.house_number->0).contains(
                term,
            )
            ||| address.street is Some && terms::terms_of(address.street->0).contains(term)
            ||| areas.neighbourhood is Some && terms::terms_of(areas.neighbourhood->0).contains(term)
            ||| areas.locality is Some && terms::terms_of(areas.locality->0).contains(term)
            ||| areas.county is Some && terms::terms_of(areas.county->0).contains(term)
            ||| areas.region is Some && terms::terms_of(areas.region->0).contains(term)
            ||| areas.country is Some && terms::terms_of(areas.country->0).contains(term)
        }),
{
    let areas = document.admin_hierarchy;
    let address = document.address;
    lemma_terms_of_aliases(document, document.aliases.len() as int, term);
    assert(document.aliases.take(document.aliases.len() as int) =~= document.aliases);
    let s0 = seq![document.name, document.label] + document.aliases;
    let s1 = s0 + document::present(address.house_number);
    let s2 = s1 + document::present(address.street);
    let s3 = s2 + document::present(areas.neighbourhood);
    let s4 = s3 + document::present(areas.locality);
    let s5 = s4 + document::present(areas.county);
    let s6 = s5 + document::present(areas.region);
    lemma_optional_terms(s0, address.house_number, term);
    lemma_optional_terms(s1, address.street, term);
    lemma_optional_terms(s2, areas.neighbourhood, term);
    lemma_optional_terms(s3, areas.locality, term);
    lemma_optional_terms(s4, areas.county, term);
    lemma_optional_terms(s5, areas.region, term);
    lemma_optional_terms(s6, areas.country, term);
}

/// A forward search looks at the rows of the documents that are found by every one of its terms, and
/// at no other.
pub proof fn law_every_term_counts(
    docs: Seq<DocumentView>,
    figures: Seq<FiguresView>,
    terms: Seq<Seq<char>>,
    y: u64,
)
    requires
        local_laws::well_figured(docs, figures),
        local_laws::fits(docs, figures),
        terms.len() > 0,
    ensures
        offsets::in_all(
            postings::lists_of(local::term_index(docs, figures, docs.len()), terms),
            y,
        ) <==> exists|i: int|
            0 <= i < docs.len() && y == #[trigger] local::offset_of(docs, figures, i) && (forall|
                k: int,
            |
                0 <= k < terms.len() ==> local::document_terms(docs[i]).contains(
                    #[trigger] terms[k],
                )),
{
    let index = local::term_index(docs, figures, docs.len());
    local_laws::law_forward_candidates(docs, figures, terms, y);
    if offsets::in_all(postings::lists_of(index, terms), y) {
        let i = choose|i: int|
            0 <= i < docs.len() && local_laws::has_all_terms(#[trigger] docs[i], terms) && y
                == local::offset_of(docs, figures, i);
        assert(y == local::offset_of(docs, figures, i));
    }
    if exists|i: int|
        0 <= i < docs.len() && y == #[trigger] local::offset_of(docs, figures, i) && (forall|k: int|
            0 <= k < terms.len() ==> local::document_terms(docs[i]).contains(#[trigger] terms[k])) {
        let i = choose|i: int|
            0 <= i < docs.len() && y == #[trigger] local::offset_of(docs, figures, i) && (forall|
                k: int,
            |
                0 <= k < terms.len() ==> local::document_terms(docs[i]).contains(
                    #[trigger] terms[k],
                ));
        assert(local_laws::has_all_terms(docs[i], terms));
    }
}

/// An autocompletion looks at the rows of the documents that are found by every one of its terms
/// but the last and by some term that begins with the last, and at no other.
pub proof fn law_last_term_may_be_begun(
    docs: Seq<DocumentView>,
    figures: Seq<FiguresView>,
    terms: Seq<Seq<char>>,
    y: u64,
)
    requires
        local_laws::well_figured(docs, figures),
        local_laws::fits(docs, figures),
        terms.len() > 0,
    ensures
        postings::matches_beginning(local::term_index(docs, figures, docs.len()), terms, y)
            <==> exists|i: int|
            0 <= i < docs.len() && y == #[trigger] local::offset_of(docs, figures, i) && (forall|
                k: int,
            |
                0 <= k < terms.len() - 1 ==> local::document_terms(docs[i]).contains(
                    #[trigger] terms[k],
                )) && (exists|term: Seq<char>| #[trigger]
                local::document_terms(docs[i]).contains(term) && terms.last().len() <= term.len()
                    && term.take(terms.last().len() as int) == terms.last()),
{
    let index = local::term_index(docs, figures, docs.len());
    let last = terms.last();
    local_laws::law_autocomplete_candidates(docs, figures, terms, y);
    if postings::matches_beginning(index, terms, y) {
        let i = choose|i: int|
            0 <= i < docs.len() && local_laws::has_beginning(#[trigger] docs[i], terms) && y
                == local::offset_of(docs, figures, i);
        let term = choose|term: Seq<char>| #[trigger]
            local::document_terms(docs[i]).contains(term) && last.is_prefix_of(term);
        assert(term.take(last.len() as int) =~= last);
        assert(y == local::offset_of(docs, figures, i));
    }
    if exists|i: int|
        0 <= i < docs.len() && y == #[trigger] local::offset_of(docs, figures, i) && (forall|k: int|
            0 <= k < terms.len() - 1 ==> local::document_terms(docs[i]).contains(
                #[trigger] terms[k],
            )) && (exists|term: Seq<char>| #[trigger]
            local::document_terms(docs[i]).contains(term) && last.len() <= term.len() && term.take(
                last.len() as int,
            ) == last) {
        let i = choose|i: int|
            0 <= i < docs.len() && y == #[trigger] local::offset_of(docs, figures, i) && (forall|
                k: int,
            |
                0 <= k < terms.len() - 1 ==> local::document_terms(docs[i]).contains(
                    #[trigger] terms[k],
                )) && (exists|term: Seq<char>| #[trigger]
                local::document_terms(docs[i]).contains(term) && last.len() <= term.len()
                    && term.take(last.len() as int) == last);
        let term = choose|term: Seq<char>| #[trigger]
            local::document_terms(docs[i]).contains(term) && last.len() <= term.len() && term.take(
                last.len() as int,
            ) == last;
        assert(last.is_prefix_of(term));
        assert(local_laws::has_beginning(docs[i], terms));
    }
}

/// The text that a document is found by is its name, its label, its aliases, its house number and
/// street, and the areas that hold it from the smallest to the country, each trimmed, with spaces
/// between them; what is missing or blank is left out.
pub proof fn law_searchable_text(document: DocumentView)
    ensures
        ({
            let areas = document.admin_hierarchy;
            let address = document.address;
            let given = |value: Option<Seq<char>>|
                if value is Some {
                    seq![value->0]
                } else {
                    Seq::<Seq<char>>::empty()
                };
            let values = seq![document.name, document.label] + document.aliases + given(
                address.house_number,
            ) + given(address.street) + given(areas.neighbourhood) + given(areas.locality) + given(
                areas.county,
            ) + given(areas.region) + given(areas.country);
            document.searchable_text() == text::join(
                values.map_values(|value: Seq<char>| text::trim(value)).filter(
                    |value: Seq<char>| value.len() > 0,
                ),
                seq![' '],
            )
        }),
{
    let kept = |value: Seq<char>| value.len() > 0;
    let trim = |value: Seq<char>| text::trim(value);
    assert(kept =~= text::filled());
    assert(trim =~= (|value: Seq<char>| text::trim(value)));
}

} // verus!
