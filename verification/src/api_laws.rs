//! What the settings and the parameters of the web service come to.
use vstd::prelude::*;

use crate::api;
use crate::api::PointNumbers;
use crate::decimal;
use crate::query::Point;

verus! {

/// A flag counts before the environment, and the environment where there is no flag.
pub proof fn law_flags_before_environment(
    flags: Map<Seq<char>, Seq<char>>,
    key: Seq<char>,
    environment: Option<Seq<char>>,
)
    ensures
        flags.contains_key(key) ==> api::flag_or(flags, key, environment) == Some(flags[key]),
        !flags.contains_key(key) ==> api::flag_or(flags, key, environment) == environment,
{
}

/// A parameter that writes a number up to the greatest allowed is that number; one that is missing,
/// or that writes no such number, leaves the default.
pub proof fn law_number_parameters(
    params: Map<Seq<char>, Seq<char>>,
    key: Seq<char>,
    max: nat,
    other: int,
    n: nat,
)
    requires
        n <= max,
    ensures
        api::number_or(params.insert(key, decimal::digits(n)), key, max, other) == n,
        !params.contains_key(key) ==> api::number_or(params, key, max, other) == other,
        params.contains_key(key) && decimal::number(params[key], max) is Err ==> api::number_or(
            params,
            key,
            max,
            other,
        ) == other,
        params.contains_key(key) && decimal::number(params[key], max) is Ok ==> api::number_or(
            params,
            key,
            max,
            other,
        ) == decimal::number(params[key], max)->Ok_0,
{
    decimal::law_number_of_digits(n, max);
}

/// The text of a parameter is what the parameter gives, and empty where it is missing.
pub proof fn law_text_parameters(params: Map<Seq<char>, Seq<char>>, key: Seq<char>)
    ensures
        params.contains_key(key) ==> api::text_or_empty(params, key) == params[key],
        !params.contains_key(key) ==> api::text_or_empty(params, key).len() == 0,
{
}

/// A search has a focus only where both of its coordinates are given, and both have to be numbers
/// then: the latitude is reported before the longitude.
pub proof fn law_focus(params: Map<Seq<char>, Seq<char>>, numbers: PointNumbers)
    ensures
        ({
            let focus = api::focus_of(params, numbers);
            let given = params.contains_key("focus_lat"@) && params.contains_key("focus_lon"@);
            &&& !given ==> focus == Ok::<Option<Point>, Seq<char>>(None)
            &&& given && numbers.latitude is Err ==> focus == Err::<Option<Point>, Seq<char>>(
                numbers.latitude->Err_0@,
            )
            &&& given && numbers.latitude is Ok && numbers.longitude is Err ==> focus == Err::<
                Option<Point>,
                Seq<char>,
            >(numbers.longitude->Err_0@)
            &&& given && numbers.latitude is Ok && numbers.longitude is Ok ==> focus == Ok::<
                Option<Point>,
                Seq<char>,
            >(
                Some(
                    Point {
                        latitude: numbers.latitude->Ok_0,
                        longitude: numbers.longitude->Ok_0,
                    },
                ),
            )
        }),
{
}

/// A reverse search needs both of its coordinates, and both as numbers: what is wrong with the
/// latitude is reported before what is wrong with the longitude.
pub proof fn law_point(params: Map<Seq<char>, Seq<char>>, numbers: PointNumbers)
    ensures
        ({
            let point = api::point_of(params, numbers);
            let lat_fault = if !params.contains_key("lat"@) {
                Some("missing lat"@)
            } else {
                match numbers.latitude {
                    Ok(_) => None,
                    Err(message) => Some(message@),
                }
            };
            let lon_fault = if !params.contains_key("lon"@) {
                Some("missing lon"@)
            } else {
                match numbers.longitude {
                    Ok(_) => None,
                    Err(message) => Some(message@),
                }
            };
            &&& lat_fault is Some ==> point == Err::<Point, Seq<char>>(lat_fault->0)
            &&& lat_fault is None && lon_fault is Some ==> point == Err::<Point, Seq<char>>(
                lon_fault->0,
            )
            &&& lat_fault is None && lon_fault is None ==> point == Ok::<Point, Seq<char>>(
                Point { latitude: numbers.latitude->Ok_0, longitude: numbers.longitude->Ok_0 },
            )
        }),
{
}

} // verus!
