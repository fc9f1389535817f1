//! Documents: the places that are indexed and found.
use vstd::prelude::*;

use crate::float::{Float32, Float64};
use crate::text;

verus! {

/// A normalized document ready to be indexed in any supported search backend.
#[derive(Debug, PartialEq)]
pub struct GeoDocument {
    pub id: String,
    pub source: String,
    pub layer: String,
    pub name: String,
    pub label: String,
    pub country_code: String,
    pub latitude: Float64,
    pub longitude: Float64,
    pub admin_hierarchy: AdminHierarchy,
    pub address: AddressParts,
    pub aliases: Vec<String>,
    pub popularity: Float32,
}

/// The administrative areas that hold a place, from the country down.
#[derive(Debug, PartialEq)]
pub struct AdminHierarchy {
    pub country: Option<String>,
    pub region: Option<String>,
    pub county: Option<String>,
    pub locality: Option<String>,
    pub neighbourhood: Option<String>,
}

/// The parts of a street address.
#[derive(Debug, PartialEq)]
pub struct AddressParts {
    pub house_number: Option<String>,
    pub street: Option<String>,
    pub postal_code: Option<String>,
}

/// What a `GeoDocument` holds, with its strings as sequences of characters.
pub ghost struct DocumentView {
    pub id: Seq<char>,
    pub source: Seq<char>,
    pub layer: Seq<char>,
    pub name: Seq<char>,
    pub label: Seq<char>,
    pub country_code: Seq<char>,
    pub latitude: Float64,
    pub longitude: Float64,
    pub admin_hierarchy: HierarchyView,
    pub address: AddressView,
    pub aliases: Seq<Seq<char>>,
    pub popularity: Float32,
}

/// What an `AdminHierarchy` holds.
pub ghost struct HierarchyView {
    pub country: Option<Seq<char>>,
    pub region: Option<Seq<char>>,
    pub county: Option<Seq<char>>,
    pub locality: Option<Seq<char>>,
    pub neighbourhood: Option<Seq<char>>,
}

/// What an `AddressParts` holds.
pub ghost struct AddressView {
    pub house_number: Option<Seq<char>>,
    pub street: Option<Seq<char>>,
    pub postal_code: Option<Seq<char>>,
}

impl View for AdminHierarchy {
    type V = HierarchyView;

    open spec fn view(&self) -> HierarchyView {
        HierarchyView {
            country: self.country.deep_view(),
            region: self.region.deep_view(),
            county: self.county.deep_view(),
            locality: self.locality.deep_view(),
            neighbourhood: self.neighbourhood.deep_view(),
        }
    }
}

impl View for AddressParts {
    type V = AddressView;

    open spec fn view(&self) -> AddressView {
        AddressView {
            house_number: self.house_number.deep_view(),
            street: self.street.deep_view(),
            postal_code: self.postal_code.deep_view(),
        }
    }
}

impl View for GeoDocument {
    type V = DocumentView;

    open spec fn view(&self) -> DocumentView {
        DocumentView {
            id: self.id@,
            source: self.source@,
            layer: self.layer@,
            name: self.name@,
            label: self.label@,
            country_code: self.country_code@,
            latitude: self.latitude,
            longitude: self.longitude,
            admin_hierarchy: self.admin_hierarchy@,
            address: self.address@,
            aliases: self.aliases.deep_view(),
            popularity: self.popularity,
        }
    }
}

impl DeepView for GeoDocument {
    type V = DocumentView;

    open spec fn deep_view(&self) -> DocumentView {
        self@
    }
}

impl Default for AdminHierarchy {
    fn default() -> (result: Self)
        ensures
            result@ == (HierarchyView {
                country: None,
                region: None,
                county: None,
                locality: None,
                neighbourhood: None,
            }),
    {
        AdminHierarchy {
            country: None,
            region: None,
            county: None,
            locality: None,
            neighbourhood: None,
        }
    }
}

impl Default for AddressParts {
    fn default() -> (result: Self)
        ensures
            result@ == (AddressView { house_number: None, street: None, postal_code: None }),
    {
        AddressParts { house_number: None, street: None, postal_code: None }
    }
}

impl Clone for AdminHierarchy {
    fn clone(&self) -> (result: Self)
        ensures
            result@ == self@,
    {
        AdminHierarchy {
            country: text::clone_optional(&self.country),
            region: text::clone_optional(&self.region),
            county: text::clone_optional(&self.county),
            locality: text::clone_optional(&self.locality),
            neighbourhood: text::clone_optional(&self.neighbourhood),
        }
    }
}

impl Clone for AddressParts {
    fn clone(&self) -> (result: Self)
        ensures
            result@ == self@,
    {
        AddressParts {
            house_number: text::clone_optional(&self.house_number),
            street: text::clone_optional(&self.street),
            postal_code: text::clone_optional(&self.postal_code),
        }
    }
}

impl Clone for GeoDocument {
    fn clone(&self) -> (result: Self)
        ensures
            result@ == self@,
    {
        GeoDocument {
            id: self.id.clone(),
            source: self.source.clone(),
            layer: self.layer.clone(),
            name: self.name.clone(),
            label: self.label.clone(),
            country_code: self.country_code.clone(),
            latitude: self.latitude,
            longitude: self.longitude,
            admin_hierarchy: self.admin_hierarchy.clone(),
            address: self.address.clone(),
            aliases: text::clone_list(&self.aliases),
            popularity: self.popularity,
        }
    }
}

/// The value as a list of at most one.
pub open spec fn present(value: Option<Seq<char>>) -> Seq<Seq<char>> {
    match value {
        Some(v) => seq![v],
        None => Seq::<Seq<char>>::empty(),
    }
}

/// The values trimmed, without those that are blank.
pub open spec fn shown(values: Seq<Seq<char>>) -> Seq<Seq<char>> {
    values.map_values(|value: Seq<char>| text::trim(value)).filter(text::filled())
}

/// Appends the trimmed value, unless it is blank.
pub fn push_non_empty(parts: &mut Vec<String>, value: &str)
    ensures
        final(parts).deep_view() == old(parts).deep_view() + shown(seq![value@]),
{
    proof {
        lemma_shown_push(Seq::<Seq<char>>::empty(), value@);
        assert(Seq::<Seq<char>>::empty().push(value@) =~= seq![value@]);
        lemma_shown_empty();
    }
    let ghost before = parts.deep_view();
    let trimmed = text::trimmed(value);
    if !trimmed.as_str().is_empty() {
        parts.push(trimmed);
        assert(parts.deep_view() == before.push(trimmed@));
        assert(before.push(trimmed@) =~= before + seq![trimmed@]);
    } else {
        assert(before =~= before + Seq::<Seq<char>>::empty());
    }
}

/// Appends the trimmed value, unless it is missing or blank.
pub fn push_optional(parts: &mut Vec<String>, value: &Option<String>)
    ensures
        final(parts).deep_view() == old(parts).deep_view() + shown(present(value.deep_view())),
{
    match value {
        Some(value) => push_non_empty(parts, value.as_str()),
        None => {
            proof {
                lemma_shown_empty();
            }
            assert(parts.deep_view() =~= parts.deep_view() + Seq::<Seq<char>>::empty());
        },
    }
}

/// An empty list shows nothing.
pub proof fn lemma_shown_empty()
    ensures
        shown(Seq::<Seq<char>>::empty()) == Seq::<Seq<char>>::empty(),
{
    let none = Seq::<Seq<char>>::empty();
    assert(none.map_values(|value: Seq<char>| text::trim(value)) =~= none);
    assert(none.filter(text::filled()) =~= none) by {
        reveal(Seq::filter);
    }
}

proof fn lemma_shown_push(values: Seq<Seq<char>>, value: Seq<char>)
    ensures
        shown(values.push(value)) == if text::trim(value).len() > 0 {
            shown(values).push(text::trim(value))
        } else {
            shown(values)
        },
{
    let trim = |value: Seq<char>| text::trim(value);
    assert(values.push(value).map_values(trim) =~= values.map_values(trim).push(
        text::trim(value),
    ));
    values.map_values(trim).lemma_filter_push(text::trim(value), text::filled());
}

/// Showing two lists one after the other shows the first and then the second.
pub proof fn lemma_shown_add(a: Seq<Seq<char>>, b: Seq<Seq<char>>)
    ensures
        shown(a + b) == shown(a) + shown(b),
{
    let trim = |value: Seq<char>| text::trim(value);
    assert((a + b).map_values(trim) =~= a.map_values(trim) + b.map_values(trim));
    Seq::filter_distributes_over_add(a.map_values(trim), b.map_values(trim), text::filled());
}

impl DocumentView {
    /// The values that make a document findable, in order.
    pub open spec fn searchable_values(self) -> Seq<Seq<char>> {
        seq![self.name, self.label] + self.aliases + present(self.address.house_number) + present(
            self.address.street,
        ) + present(self.admin_hierarchy.neighbourhood) + present(self.admin_hierarchy.locality)
            + present(self.admin_hierarchy.county) + present(self.admin_hierarchy.region) + present(
            self.admin_hierarchy.country,
        )
    }

    /// The text that a document is found by.
    pub open spec fn searchable_text(self) -> Seq<char> {
        text::join(shown(self.searchable_values()), seq![' '])
    }

    /// The label that the name and the areas give.
    pub open spec fn default_label(self) -> Seq<char> {
        text::join(
            shown(
                seq![self.name] + present(self.admin_hierarchy.locality) + present(
                    self.admin_hierarchy.region,
                ) + present(self.admin_hierarchy.country),
            ),
            seq![',', ' '],
        )
    }

    /// The document, with the default label where its own is blank.
    pub open spec fn labelled(self) -> DocumentView {
        if text::trim(self.label).len() > 0 {
            self
        } else {
            DocumentView { label: self.default_label(), ..self }
        }
    }
}

impl GeoDocument {
    /// The text that the document is found by.
    pub fn searchable_text(&self) -> (result: String)
        ensures
            result@ == self@.searchable_text(),
    {
        let mut parts: Vec<String> = Vec::new();
        let ghost mut values = Seq::<Seq<char>>::empty();
        proof {
            lemma_shown_empty();
        }
        assert(parts.deep_view() =~= shown(values));
        push_non_empty(&mut parts, self.name.as_str());
        push_non_empty(&mut parts, self.label.as_str());
        proof {
            lemma_shown_add(values, seq![self.name@]);
            lemma_shown_add(values + seq![self.name@], seq![self.label@]);
            values = values + seq![self.name@] + seq![self.label@];
            assert(values =~= seq![self.name@, self.label@]);
        }
        let ghost head = values;
        let ghost aliases = self.aliases.deep_view();
        let mut i: usize = 0;
        assert(head + aliases.take(0) =~= head);
        while i < self.aliases.len()
            invariant
                i <= self.aliases@.len(),
                aliases == self.aliases.deep_view(),
                parts.deep_view() == shown(head + aliases.take(i as int)),
            decreases self.aliases@.len() - i,
        {
            push_non_empty(&mut parts, self.aliases[i].as_str());
            proof {
                lemma_shown_add(head + aliases.take(i as int), seq![aliases[i as int]]);
                assert(head + aliases.take(i + 1) =~= head + aliases.take(i as int)
                    + seq![aliases[i as int]]);
            }
            i = i + 1;
        }
        assert(aliases.take(i as int) =~= aliases);
        push_optional(&mut parts, &self.address.house_number);
        push_optional(&mut parts, &self.address.street);
        push_optional(&mut parts, &self.admin_hierarchy.neighbourhood);
        push_optional(&mut parts, &self.admin_hierarchy.locality);
        push_optional(&mut parts, &self.admin_hierarchy.county);
        push_optional(&mut parts, &self.admin_hierarchy.region);
        push_optional(&mut parts, &self.admin_hierarchy.country);
        proof {
            let a = present(self@.address.house_number);
            let b = present(self@.address.street);
            let c = present(self@.admin_hierarchy.neighbourhood);
            let d = present(self@.admin_hierarchy.locality);
            let e = present(self@.admin_hierarchy.county);
            let f = present(self@.admin_hierarchy.region);
            let g = present(self@.admin_hierarchy.country);
            let s = head + aliases;
            lemma_shown_add(s, a);
            lemma_shown_add(s + a, b);
            lemma_shown_add(s + a + b, c);
            lemma_shown_add(s + a + b + c, d);
            lemma_shown_add(s + a + b + c + d, e);
            lemma_shown_add(s + a + b + c + d + e, f);
            lemma_shown_add(s + a + b + c + d + e + f, g);
            reveal_strlit(" ");
            assert(" "@ =~= seq![' ']);
        }
        text::joined(&parts, " ")
    }

    /// Gives the document a label made of its name and areas, where its own is blank.
    pub fn ensure_label(&mut self)
        ensures
            final(self)@ == old(self)@.labelled(),
    {
        let own = text::trimmed(self.label.as_str());
        if !own.as_str().is_empty() {
            return ;
        }
        let mut parts: Vec<String> = Vec::new();
        push_non_empty(&mut parts, self.name.as_str());
        push_optional(&mut parts, &self.admin_hierarchy.locality);
        push_optional(&mut parts, &self.admin_hierarchy.region);
        push_optional(&mut parts, &self.admin_hierarchy.country);
        proof {
            let a = seq![self@.name];
            let b = present(self@.admin_hierarchy.locality);
            let c = present(self@.admin_hierarchy.region);
            let d = present(self@.admin_hierarchy.country);
            lemma_shown_add(a, b);
            lemma_shown_add(a + b, c);
            lemma_shown_add(a + b + c, d);
            assert(Seq::<Seq<char>>::empty() + shown(a) =~= shown(a));
            reveal_strlit(", ");
            assert(", "@ =~= seq![',', ' ']);
        }
        self.label = text::joined(&parts, ", ");
    }
}

/// Giving a document a label a second time changes nothing.
pub proof fn law_label_once(document: DocumentView)
    ensures
        document.labelled().labelled() == document.labelled(),
{
}

/// A document whose name is not blank has a label that is not blank, once it is labelled.
pub proof fn law_label_not_blank(document: DocumentView)
    requires
        text::trim(document.name).len() > 0,
    ensures
        text::trim(document.labelled().label).len() > 0,
{
    if text::trim(document.label).len() == 0 {
        let areas = document.admin_hierarchy;
        let first = seq![document.name];
        let more = present(areas.locality) + present(areas.region) + present(areas.country);
        assert(first + present(areas.locality) + present(areas.region) + present(areas.country)
            =~= first + more);
        lemma_shown_add(first, more);
        lemma_shown_push(Seq::<Seq<char>>::empty(), document.name);
        lemma_shown_empty();
        assert(Seq::<Seq<char>>::empty().push(document.name) =~= first);
        let parts = shown(first) + shown(more);
        let name = text::trim(document.name);
        assert(parts[0] == name);
        text::lemma_join_begins(parts, seq![',', ' ']);
        let label = document.default_label();
        text::lemma_trim_end_last(
            text::trim_start(document.name, text::CharSet::Space),
            text::CharSet::Space,
        );
        assert(label[name.len() - 1] == name[name.len() - 1]);
        text::lemma_trim_leaves(label, text::CharSet::Space, name.len() - 1);
    }
}

/// An empty text shows nothing.
pub proof fn lemma_empty_shows_nothing()
    ensures
        shown(present(Some(Seq::<char>::empty()))) == shown(present(None)),
{
    let none = Seq::<Seq<char>>::empty();
    lemma_shown_push(none, Seq::<char>::empty());
    assert(none.push(Seq::<char>::empty()) =~= present(Some(Seq::<char>::empty())));
}

/// Documents that show the same are found by the same text.
pub proof fn lemma_same_searchable_text(a: DocumentView, b: DocumentView)
    requires
        a.name == b.name,
        a.label == b.label,
        a.aliases == b.aliases,
        shown(present(a.address.house_number)) == shown(present(b.address.house_number)),
        shown(present(a.address.street)) == shown(present(b.address.street)),
        shown(present(a.admin_hierarchy.neighbourhood)) == shown(
            present(b.admin_hierarchy.neighbourhood),
        ),
        shown(present(a.admin_hierarchy.locality)) == shown(present(b.admin_hierarchy.locality)),
        shown(present(a.admin_hierarchy.county)) == shown(present(b.admin_hierarchy.county)),
        shown(present(a.admin_hierarchy.region)) == shown(present(b.admin_hierarchy.region)),
        shown(present(a.admin_hierarchy.country)) == shown(present(b.admin_hierarchy.country)),
    ensures
        a.searchable_text() == b.searchable_text(),
{
    lemma_shown_values(a);
    lemma_shown_values(b);
}

proof fn lemma_shown_values(document: DocumentView)
    ensures
        shown(document.searchable_values()) == shown(
            seq![document.name, document.label] + document.aliases,
        ) + shown(present(document.address.house_number)) + shown(
            present(document.address.street),
        ) + shown(present(document.admin_hierarchy.neighbourhood)) + shown(
            present(document.admin_hierarchy.locality),
        ) + shown(present(document.admin_hierarchy.county)) + shown(
            present(document.admin_hierarchy.region),
        ) + shown(present(document.admin_hierarchy.country)),
{
    let a = present(document.address.house_number);
    let b = present(document.address.street);
    let c = present(document.admin_hierarchy.neighbourhood);
    let d = present(document.admin_hierarchy.locality);
    let e = present(document.admin_hierarchy.county);
    let f = present(document.admin_hierarchy.region);
    let g = present(document.admin_hierarchy.country);
    let s = seq![document.name, document.label] + document.aliases;
    lemma_shown_add(s, a);
    lemma_shown_add(s + a, b);
    lemma_shown_add(s + a + b, c);
    lemma_shown_add(s + a + b + c, d);
    lemma_shown_add(s + a + b + c + d, e);
    lemma_shown_add(s + a + b + c + d + e, f);
    lemma_shown_add(s + a + b + c + d + e + f, g);
}

} // verus!
