//! Planning the Geometry rows a hand-drawn connector route is written to.
use vstd::prelude::*;

use crate::model::{EditError, EditResult};
use crate::policy::{GeometryRow, route_row_index, route_row_index_of};
use crate::text::{owned, str_eq};

verus! {

/// One cell of a planned route: the route point whose coordinate it takes, the Geometry row it
/// lies in, whether it is the row's `X` (else its `Y`), and the row's type.
#[derive(Clone, Debug, PartialEq, Eq)]
pub struct RouteCell {
    pub point: usize,
    pub row: u32,
    pub x: bool,
    pub row_type: String,
}

pub open spec fn route_cell_view(cell: RouteCell) -> (int, u32, bool, Seq<char>) {
    (cell.point as int, cell.row, cell.x, cell.row_type@)
}

/// The filed row indices, in order.
pub open spec fn filed_keys(filed: Seq<(u32, GeometryRow)>) -> Seq<u32> {
    filed.map_values(|entry: (u32, GeometryRow)| entry.0)
}

/// The filed indices rise strictly, as the keys of an ordered map do.
pub open spec fn filed_sorted(filed: Seq<(u32, GeometryRow)>) -> bool {
    forall|i: int, j: int| 0 <= i < j < filed.len() ==> #[trigger] filed[i].0 < #[trigger] filed[j].0
}

/// The filed row with index `index`, if any.
pub open spec fn filed_row(filed: Seq<(u32, GeometryRow)>, index: u32) -> Option<GeometryRow> {
    if exists|i: int| 0 <= i < filed.len() && #[trigger] filed[i].0 == index {
        Some(filed[choose|i: int| 0 <= i < filed.len() && #[trigger] filed[i].0 == index].1)
    } else {
        None
    }
}

/// The row type a route point's row must have: the first point moves, the others draw lines.
pub open spec fn expected_row_type(slot: int) -> Seq<char> {
    if slot == 0 {
        "MoveTo"@
    } else {
        "LineTo"@
    }
}

/// How many rows the route fills: one per point, and every filed row besides.
pub open spec fn route_slots(filed: Seq<(u32, GeometryRow)>, points: int) -> int {
    if filed.len() > points {
        filed.len() as int
    } else {
        points
    }
}

/// The row of the `slot`-th point.
pub open spec fn slot_row(filed: Seq<(u32, GeometryRow)>, slot: int) -> u32 {
    route_row_index_of(filed_keys(filed), slot)
}

/// The `slot`-th row is filed with a type other than the one its point needs.
pub open spec fn slot_fault(filed: Seq<(u32, GeometryRow)>, slot: int) -> bool {
    match filed_row(filed, slot_row(filed, slot)) {
        Some(row) => row.row_type matches Some(t) && t@ != expected_row_type(slot),
        None => false,
    }
}

/// The type the `slot`-th row keeps: its filed one, else the one its point needs.
pub open spec fn slot_row_type(filed: Seq<(u32, GeometryRow)>, slot: int) -> Seq<char> {
    match filed_row(filed, slot_row(filed, slot)) {
        Some(row) => match row.row_type {
            Some(t) => t@,
            None => expected_row_type(slot),
        },
        None => expected_row_type(slot),
    }
}

/// Whether the `slot`-th row gets its `X` (or `Y`) cell: every route point writes both; a
/// surplus row past the last point only rewrites the coordinates it already files, to the
/// last point.
pub open spec fn slot_writes(filed: Seq<(u32, GeometryRow)>, points: int, slot: int, x: bool) -> bool {
    slot < points || match filed_row(filed, slot_row(filed, slot)) {
        Some(row) => if x {
            row.has_x
        } else {
            row.has_y
        },
        None => false,
    }
}

/// The cells planned for the `slot`-th row, `X` before `Y`.
pub open spec fn slot_cells(filed: Seq<(u32, GeometryRow)>, points: int, slot: int) -> Seq<
    (int, u32, bool, Seq<char>),
> {
    let point = if slot < points {
        slot
    } else {
        points - 1
    };
    let cell = |x: bool| (point, slot_row(filed, slot), x, slot_row_type(filed, slot));
    (if slot_writes(filed, points, slot, true) {
        seq![cell(true)]
    } else {
        Seq::empty()
    }) + (if slot_writes(filed, points, slot, false) {
        seq![cell(false)]
    } else {
        Seq::empty()
    })
}

/// The cells planned for the first `n` rows.
pub open spec fn planned_cells(filed: Seq<(u32, GeometryRow)>, points: int, n: int) -> Seq<
    (int, u32, bool, Seq<char>),
>
    decreases n,
{
    if n <= 0 {
        Seq::empty()
    } else {
        planned_cells(filed, points, n - 1) + slot_cells(filed, points, n - 1)
    }
}

/// The position of the filed row with index `index`.
fn find_filed(filed: &[(u32, GeometryRow)], index: u32) -> (result: Option<usize>)
    requires
        filed_sorted(filed@),
    ensures
        match result {
            Some(i) => i < filed@.len() && filed@[i as int].0 == index && filed_row(filed@, index)
                == Some(filed@[i as int].1),
            None => filed_row(filed@, index) is None,
        },
{
    let mut i: usize = 0;
    while i < filed.len()
        invariant
            i <= filed@.len(),
            filed_sorted(filed@),
            forall|j: int| 0 <= j < i ==> #[trigger] filed@[j].0 != index,
        decreases filed@.len() - i,
    {
        if filed[i].0 == index {
            proof {
                let k = choose|k: int| 0 <= k < filed@.len() && #[trigger] filed@[k].0 == index;
                if k != i as int {
                    if k < i {
                    } else {
                        assert(filed@[i as int].0 < filed@[k].0);
                    }
                }
            }
            return Some(i);
        }
        i = i + 1;
    }
    None
}

/// Plans the cells a connector route writes: `filed` lists the connector's Geometry rows by
/// index, `points` counts the route's distinct points. Each point takes the row the filed
/// indices give it in order (then the indices past the highest), with both coordinates; a
/// filed row past the last point is collapsed onto it, keeping only the coordinates it files.
/// A row filed with a type other than `MoveTo` for the first point or `LineTo` for the others
/// refuses the route.
pub fn plan_route_rows(filed: &[(u32, GeometryRow)], points: usize) -> (result: EditResult<
    Vec<RouteCell>,
>)
    requires
        2 <= points,
        filed_sorted(filed@),
    ensures
        match result {
            Ok(cells) => (forall|slot: int|
                0 <= slot < route_slots(filed@, points as int) ==> !#[trigger] slot_fault(
                    filed@,
                    slot,
                )) && cells@.map_values(|cell: RouteCell| route_cell_view(cell)) == planned_cells(
                filed@,
                points as int,
                route_slots(filed@, points as int),
            ),
            Err(error) => {
                &&& exists|slot: int|
                    0 <= slot < route_slots(filed@, points as int) && #[trigger] slot_fault(
                        filed@,
                        slot,
                    )
                &&& error matches EditError::InvalidState(message)
                &&& message@ == "connector Geometry is not a single straight run"@
            },
        },
{
    let mut keys: Vec<u32> = Vec::new();
    let mut k: usize = 0;
    while k < filed.len()
        invariant
            k <= filed@.len(),
            keys@ == filed_keys(filed@).subrange(0, k as int),
        decreases filed@.len() - k,
    {
        keys.push(filed[k].0);
        k = k + 1;
    }
    assert(keys@ == filed_keys(filed@));
    let count: usize = if filed.len() > points {
        filed.len()
    } else {
        points
    };
    let mut cells: Vec<RouteCell> = Vec::new();
    let mut slot: usize = 0;
    while slot < count
        invariant
            2 <= points,
            filed_sorted(filed@),
            keys@ == filed_keys(filed@),
            count == route_slots(filed@, points as int),
            slot <= count,
            forall|s: int| 0 <= s < slot ==> !#[trigger] slot_fault(filed@, s),
            cells@.map_values(|cell: RouteCell| route_cell_view(cell)) == planned_cells(
                filed@,
                points as int,
                slot as int,
            ),
        decreases count - slot,
    {
        let index = route_row_index(keys.as_slice(), slot);
        let found = find_filed(filed, index);
        let expected = if slot == 0 {
            "MoveTo"
        } else {
            "LineTo"
        };
        proof {
            reveal_strlit("MoveTo");
            reveal_strlit("LineTo");
        }
        assert(expected@ == expected_row_type(slot as int));
        let row_type: String = match found {
            Some(i) => match &filed[i].1.row_type {
                Some(t) => {
                    if !str_eq(t.as_str(), expected) {
                        assert(slot_fault(filed@, slot as int));
                        return Err(EditError::InvalidState(
                            owned("connector Geometry is not a single straight run"),
                        ));
                    }
                    owned(t.as_str())
                },
                None => owned(expected),
            },
            None => owned(expected),
        };
        assert(row_type@ == slot_row_type(filed@, slot as int));
        assert(!slot_fault(filed@, slot as int));
        let point: usize = if slot < points {
            slot
        } else {
            points - 1
        };
        let ghost before = cells@.map_values(|cell: RouteCell| route_cell_view(cell));
        let write_x = slot < points || match found {
            Some(i) => filed[i].1.has_x,
            None => false,
        };
        let write_y = slot < points || match found {
            Some(i) => filed[i].1.has_y,
            None => false,
        };
        assert(write_x == slot_writes(filed@, points as int, slot as int, true));
        assert(write_y == slot_writes(filed@, points as int, slot as int, false));
        if write_x {
            cells.push(RouteCell { point, row: index, x: true, row_type: owned(row_type.as_str()) });
        }
        if write_y {
            cells.push(RouteCell { point, row: index, x: false, row_type: owned(row_type.as_str()) });
        }
        assert(cells@.map_values(|cell: RouteCell| route_cell_view(cell)) =~= before + slot_cells(
            filed@,
            points as int,
            slot as int,
        ));
        slot = slot + 1;
    }
    Ok(cells)
}

} // verus!
