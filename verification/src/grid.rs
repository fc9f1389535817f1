//! The grid of cells that places are indexed by.
use vstd::prelude::*;

use crate::decimal;
use crate::text;

verus! {

/// The name of a cell of the grid, counted in rows of latitude and columns of longitude.
pub open spec fn cell_name(lat: int, lon: int) -> Seq<char> {
    decimal::signed_digits(lat).push(':') + decimal::signed_digits(lon)
}

/// The name of the cell with the given row of latitude and column of longitude.
pub fn cell_for_point(lat_cell: i32, lon_cell: i32) -> (result: String)
    ensures
        result@ == cell_name(lat_cell as int, lon_cell as int),
{
    let mut result = decimal::signed_text(lat_cell);
    result.push(':');
    let lon = decimal::signed_text(lon_cell);
    result.append(lon.as_str());
    result
}

/// The names of the cells of one row, from one column to another.
pub open spec fn row_cells(lat: int, min_lon: int, max_lon: int) -> Seq<Seq<char>>
    decreases max_lon - min_lon + 1,
{
    if max_lon < min_lon {
        Seq::<Seq<char>>::empty()
    } else {
        row_cells(lat, min_lon, max_lon - 1).push(cell_name(lat, max_lon))
    }
}

/// The names of the cells of a rectangle, row by row.
pub open spec fn bound_cells(min_lat: int, min_lon: int, max_lat: int, max_lon: int) -> Seq<
    Seq<char>,
>
    decreases max_lat - min_lat + 1,
{
    if max_lat < min_lat {
        Seq::<Seq<char>>::empty()
    } else {
        bound_cells(min_lat, min_lon, max_lat - 1, max_lon) + row_cells(max_lat, min_lon, max_lon)
    }
}

/// The names of the cells of a rectangle, row by row; both edges belong to it.
pub fn cells_for_bounds(
    min_lat_cell: i32,
    min_lon_cell: i32,
    max_lat_cell: i32,
    max_lon_cell: i32,
) -> (result: Vec<String>)
    ensures
        result.deep_view() == bound_cells(
            min_lat_cell as int,
            min_lon_cell as int,
            max_lat_cell as int,
            max_lon_cell as int,
        ),
{
    let mut cells: Vec<String> = Vec::new();
    let mut lat: i64 = min_lat_cell as i64;
    assert(cells.deep_view() =~= Seq::<Seq<char>>::empty());
    while lat <= max_lat_cell as i64
        invariant
            min_lat_cell <= lat,
            lat <= max_lat_cell + 1 || lat == min_lat_cell,
            cells.deep_view() == bound_cells(
                min_lat_cell as int,
                min_lon_cell as int,
                lat - 1,
                max_lon_cell as int,
            ),
        decreases max_lat_cell + 1 - lat,
    {
        let ghost before = cells.deep_view();
        let mut lon: i64 = min_lon_cell as i64;
        assert(before =~= before + row_cells(lat as int, min_lon_cell as int, lon - 1));
        while lon <= max_lon_cell as i64
            invariant
                min_lat_cell <= lat <= max_lat_cell,
                min_lon_cell <= lon,
                lon <= max_lon_cell + 1 || lon == min_lon_cell,
                cells.deep_view() == before + row_cells(lat as int, min_lon_cell as int, lon - 1),
            decreases max_lon_cell + 1 - lon,
        {
            let ghost current = cells.deep_view();
            let cell = cell_for_point(lat as i32, lon as i32);
            cells.push(cell);
            assert(cells.deep_view() =~= current.push(cell@));
            assert(current.push(cell@) =~= before + row_cells(
                lat as int,
                min_lon_cell as int,
                lon as int,
            ));
            lon = lon + 1;
        }
        proof {
            if max_lon_cell < min_lon_cell {
                assert(row_cells(lat as int, min_lon_cell as int, max_lon_cell as int) =~= row_cells(
                    lat as int,
                    min_lon_cell as int,
                    lon - 1,
                ));
            }
        }
        lat = lat + 1;
    }
    proof {
        if max_lat_cell < min_lat_cell {
            assert(bound_cells(
                min_lat_cell as int,
                min_lon_cell as int,
                max_lat_cell as int,
                max_lon_cell as int,
            ) =~= cells.deep_view());
        }
    }
    cells
}

proof fn lemma_row_cells(lat: int, min_lon: int, max_lon: int, name: Seq<char>)
    ensures
        row_cells(lat, min_lon, max_lon).contains(name) <==> exists|lon: int|
            min_lon <= lon <= max_lon && name == #[trigger] cell_name(lat, lon),
    decreases max_lon - min_lon + 1,
{
    let all = row_cells(lat, min_lon, max_lon);
    if min_lon <= max_lon {
        lemma_row_cells(lat, min_lon, max_lon - 1, name);
        let before = row_cells(lat, min_lon, max_lon - 1);
        if all.contains(name) {
            let i = choose|i: int| 0 <= i < all.len() && all[i] == name;
            if i < before.len() {
                assert(before[i] == name);
                assert(before.contains(name));
            } else {
                assert(name == cell_name(lat, max_lon));
            }
        }
        if exists|lon: int| min_lon <= lon <= max_lon && name == #[trigger] cell_name(lat, lon) {
            let lon = choose|lon: int|
                min_lon <= lon <= max_lon && name == #[trigger] cell_name(lat, lon);
            if lon < max_lon {
                assert(before.contains(name));
                let i = choose|i: int| 0 <= i < before.len() && before[i] == name;
                assert(all[i] == name);
            } else {
                assert(all[before.len() as int] == name);
            }
        }
    }
}

/// The cells of a rectangle are those whose row and column lie between its edges.
pub proof fn law_cells_of_bounds(
    min_lat: int,
    min_lon: int,
    max_lat: int,
    max_lon: int,
    name: Seq<char>,
)
    ensures
        bound_cells(min_lat, min_lon, max_lat, max_lon).contains(name) <==> exists|
            lat: int,
            lon: int,
        |
            min_lat <= lat <= max_lat && min_lon <= lon <= max_lon && name == #[trigger] cell_name(
                lat,
                lon,
            ),
    decreases max_lat - min_lat + 1,
{
    let all = bound_cells(min_lat, min_lon, max_lat, max_lon);
    if min_lat <= max_lat {
        law_cells_of_bounds(min_lat, min_lon, max_lat - 1, max_lon, name);
        lemma_row_cells(max_lat, min_lon, max_lon, name);
        let before = bound_cells(min_lat, min_lon, max_lat - 1, max_lon);
        let row = row_cells(max_lat, min_lon, max_lon);
        if all.contains(name) {
            let i = choose|i: int| 0 <= i < all.len() && all[i] == name;
            if i < before.len() {
                assert(before[i] == name);
                assert(before.contains(name));
            } else {
                assert(row[i - before.len()] == name);
                assert(row.contains(name));
            }
        }
        if exists|lat: int, lon: int|
            min_lat <= lat <= max_lat && min_lon <= lon <= max_lon && name == #[trigger] cell_name(
                lat,
                lon,
            ) {
            let (lat, lon) = choose|lat: int, lon: int|
                min_lat <= lat <= max_lat && min_lon <= lon <= max_lon
                    && name == #[trigger] cell_name(lat, lon);
            if lat < max_lat {
                assert(before.contains(name));
                let i = choose|i: int| 0 <= i < before.len() && before[i] == name;
                assert(all[i] == name);
            } else {
                assert(row.contains(name));
                let i = choose|i: int| 0 <= i < row.len() && row[i] == name;
                assert(all[before.len() + i] == name);
            }
        }
    }
}

proof fn lemma_signed_digits(n: int)
    ensures
        forall|i: int|
            0 <= i < decimal::signed_digits(n).len() ==> #[trigger] decimal::signed_digits(n)[i]
                != ':',
        decimal::signed_digits(n).len() > 0,
        decimal::signed_digits(n)[0] == '-' <==> n < 0,
{
    let magnitude = if n < 0 {
        (-n) as nat
    } else {
        n as nat
    };
    decimal::lemma_digits(magnitude);
    let all = decimal::signed_digits(n);
    assert forall|i: int| 0 <= i < all.len() implies #[trigger] all[i] != ':' by {
        if n < 0 {
            if i > 0 {
                assert(all[i] == decimal::digits(magnitude)[i - 1]);
            }
        } else {
            assert(all[i] == decimal::digits(magnitude)[i]);
        }
    }
    if n >= 0 {
        assert('0' <= decimal::digits(magnitude)[0] <= '9');
    }
}

proof fn lemma_signed_digits_injective(a: int, b: int)
    requires
        decimal::signed_digits(a) == decimal::signed_digits(b),
    ensures
        a == b,
{
    lemma_signed_digits(a);
    lemma_signed_digits(b);
    let (x, y) = if a < 0 {
        ((-a) as nat, (-b) as nat)
    } else {
        (a as nat, b as nat)
    };
    if a < 0 {
        assert(decimal::signed_digits(a).drop_first() =~= decimal::digits(x));
        assert(decimal::signed_digits(b).drop_first() =~= decimal::digits(y));
    }
    decimal::law_number_of_digits(x, x + y);
    decimal::law_number_of_digits(y, x + y);
}

/// Different cells have different names.
pub proof fn law_cell_names_differ(lat: int, lon: int, other_lat: int, other_lon: int)
    requires
        cell_name(lat, lon) == cell_name(other_lat, other_lon),
    ensures
        lat == other_lat,
        lon == other_lon,
{
    let name = cell_name(lat, lon);
    let a = decimal::signed_digits(lat);
    let b = decimal::signed_digits(other_lat);
    lemma_signed_digits(lat);
    lemma_signed_digits(other_lat);
    assert forall|i: int| 0 <= i < a.len() implies name[i] != ':' by {
        assert(name[i] == a[i]);
    }
    assert forall|i: int| 0 <= i < b.len() implies name[i] != ':' by {
        assert(name[i] == b[i]);
    }
    text::lemma_find(name, ':', a.len() as int);
    text::lemma_find(name, ':', b.len() as int);
    assert(a =~= name.take(a.len() as int));
    assert(b =~= name.take(b.len() as int));
    lemma_signed_digits_injective(lat, other_lat);
    assert(decimal::signed_digits(lon) =~= name.skip(a.len() as int + 1));
    assert(decimal::signed_digits(other_lon) =~= name.skip(b.len() as int + 1));
    lemma_signed_digits_injective(lon, other_lon);
}

/// The name of a cell is its row, a colon and its column.
pub proof fn law_cell_name(lat: int, lon: int)
    ensures
        cell_name(lat, lon) == decimal::signed_digits(lat) + seq![':'] + decimal::signed_digits(lon),
{
    assert(decimal::signed_digits(lat).push(':') =~= decimal::signed_digits(lat) + seq![':']);
}

proof fn lemma_row_of_cells(lat: int, min_lon: int, max_lon: int)
    requires
        min_lon <= max_lon + 1,
    ensures
        row_cells(lat, min_lon, max_lon) == Seq::new(
            (max_lon + 1 - min_lon) as nat,
            |i: int| cell_name(lat, min_lon + i),
        ),
    decreases max_lon - min_lon + 1,
{
    let all = Seq::new((max_lon + 1 - min_lon) as nat, |i: int| cell_name(lat, min_lon + i));
    if min_lon <= max_lon {
        lemma_row_of_cells(lat, min_lon, max_lon - 1);
        assert(row_cells(lat, min_lon, max_lon) =~= all);
    } else {
        assert(row_cells(lat, min_lon, max_lon) =~= all);
    }
}

/// The cells of a rectangle are listed row by row from the lowest, and each row column by column
/// from the lowest; a rectangle without rows or without columns has none.
pub proof fn law_cells_row_by_row(min_lat: int, min_lon: int, max_lat: int, max_lon: int)
    ensures
        max_lat < min_lat ==> bound_cells(min_lat, min_lon, max_lat, max_lon) == Seq::<
            Seq<char>,
        >::empty(),
        max_lat >= min_lat ==> bound_cells(min_lat, min_lon, max_lat, max_lon) == bound_cells(
            min_lat,
            min_lon,
            max_lat - 1,
            max_lon,
        ) + Seq::new(
            if max_lon < min_lon {
                0
            } else {
                (max_lon + 1 - min_lon) as nat
            },
            |i: int| cell_name(max_lat, min_lon + i),
        ),
{
    if min_lon <= max_lon {
        lemma_row_of_cells(max_lat, min_lon, max_lon);
    } else {
        assert(row_cells(max_lat, min_lon, max_lon) =~= Seq::new(
            0,
            |i: int| cell_name(max_lat, min_lon + i),
        ));
    }
}

} // verus!
