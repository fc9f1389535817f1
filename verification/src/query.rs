//! Points, bounds, queries and what they find.
use vstd::prelude::*;

use crate::document::{DocumentView, GeoDocument};
use crate::float::{Float32, Float64};

verus! {

/// A place on the globe, in degrees.
#[derive(Clone, Copy, Debug, PartialEq)]
pub struct Point {
    pub latitude: Float64,
    pub longitude: Float64,
}

/// A search for a place by text.
#[derive(Clone, Debug, PartialEq)]
pub struct ForwardQuery {
    pub text: String,
    pub country_code: Option<String>,
    pub focus: Option<Point>,
    pub limit: usize,
}

/// A search for a place by the beginning of its text.
#[derive(Clone, Debug, PartialEq)]
pub struct AutocompleteQuery {
    pub text: String,
    pub country_code: Option<String>,
    pub limit: usize,
}

/// A search for the places near a point.
#[derive(Clone, Debug, PartialEq)]
pub struct ReverseQuery {
    pub point: Point,
    pub radius_meters: u32,
    pub limit: usize,
}

/// A document that a search has found.
#[derive(Debug, PartialEq)]
pub struct SearchHit {
    pub document: GeoDocument,
    pub score: Float32,
    pub distance_meters: Option<Float64>,
}

/// What a `SearchHit` holds.
pub ghost struct HitView {
    pub document: DocumentView,
    pub score: Float32,
    pub distance_meters: Option<Float64>,
}

impl View for SearchHit {
    type V = HitView;

    open spec fn view(&self) -> HitView {
        HitView {
            document: self.document@,
            score: self.score,
            distance_meters: self.distance_meters,
        }
    }
}

impl DeepView for SearchHit {
    type V = HitView;

    open spec fn deep_view(&self) -> HitView {
        self@
    }
}

impl Clone for SearchHit {
    fn clone(&self) -> (result: Self)
        ensures
            result@ == self@,
    {
        SearchHit {
            document: self.document.clone(),
            score: self.score,
            distance_meters: self.distance_meters,
        }
    }
}

/// What an index is made for.
#[derive(Clone, Debug, PartialEq)]
pub struct SchemaDefinition {
    pub country_code: String,
    pub languages: Vec<String>,
    pub layers: Vec<String>,
}

/// A rectangle of longitudes and latitudes, edges included.
#[derive(Clone, Copy, Debug, PartialEq)]
pub struct Bounds {
    pub min_lon: Float64,
    pub min_lat: Float64,
    pub max_lon: Float64,
    pub max_lat: Float64,
}

impl Bounds {
    /// Whether the point is in the rectangle; a coordinate that is no number is nowhere.
    pub open spec fn holds(self, point: Point) -> bool {
        &&& self.min_lon.within(point.longitude)
        &&& point.longitude.within(self.max_lon)
        &&& self.min_lat.within(point.latitude)
        &&& point.latitude.within(self.max_lat)
    }

    pub fn contains(&self, point: Point) -> (result: bool)
        ensures
            result == self.holds(point),
    {
        self.min_lon.is_within(point.longitude) && point.longitude.is_within(self.max_lon)
            && self.min_lat.is_within(point.latitude) && point.latitude.is_within(self.max_lat)
    }
}

/// The limit brought into the range from 1 to 100.
pub open spec fn limit_within_bounds(limit: int) -> int {
    if limit < 1 {
        1
    } else if limit > 100 {
        100
    } else {
        limit
    }
}

pub fn bounded_limit(limit: usize) -> (result: usize)
    ensures
        result == limit_within_bounds(limit as int),
{
    if limit < 1 {
        1
    } else if limit > 100 {
        100
    } else {
        limit
    }
}

/// Corners of a rectangle that holds a point lie on both sides of the point.
pub proof fn law_bounds_hold_numbers(bounds: Bounds, point: Point)
    requires
        bounds.holds(point),
    ensures
        bounds.min_lon.value() <= point.longitude.value() <= bounds.max_lon.value(),
        bounds.min_lat.value() <= point.latitude.value() <= bounds.max_lat.value(),
{
    crate::float::law_double_order(bounds.min_lon, point.longitude);
    crate::float::law_double_order(point.longitude, bounds.max_lon);
    crate::float::law_double_order(bounds.min_lat, point.latitude);
    crate::float::law_double_order(point.latitude, bounds.max_lat);
}

/// A rectangle holds a point where the coordinates of the point and of its corners are numbers, and
/// the point lies between the corners, edges included.
pub proof fn law_bounds_by_numbers(bounds: Bounds, point: Point)
    ensures
        bounds.holds(point) <==> ({
            &&& !point.longitude.is_nan() && !point.latitude.is_nan()
            &&& !bounds.min_lon.is_nan() && !bounds.max_lon.is_nan()
            &&& !bounds.min_lat.is_nan() && !bounds.max_lat.is_nan()
            &&& bounds.min_lon.value() <= point.longitude.value()
            &&& point.longitude.value() <= bounds.max_lon.value()
            &&& bounds.min_lat.value() <= point.latitude.value()
            &&& point.latitude.value() <= bounds.max_lat.value()
        }),
{
    if !point.longitude.is_nan() && !point.latitude.is_nan() && !bounds.min_lon.is_nan()
        && !bounds.max_lon.is_nan() && !bounds.min_lat.is_nan() && !bounds.max_lat.is_nan() {
        crate::float::law_double_order(bounds.min_lon, point.longitude);
        crate::float::law_double_order(point.longitude, bounds.max_lon);
        crate::float::law_double_order(bounds.min_lat, point.latitude);
        crate::float::law_double_order(point.latitude, bounds.max_lat);
    }
}

/// A limit from 1 to 100 stays, and any other gives way to the nearer end of that range.
pub proof fn law_limits(limit: int)
    ensures
        1 <= limit <= 100 ==> limit_within_bounds(limit) == limit,
        limit <= 0 ==> limit_within_bounds(limit) == 1,
        limit >= 101 ==> limit_within_bounds(limit) == 100,
{
}

} // verus!
