//! The cells of a shape's snapshot: their cached values and their order.
use vstd::prelude::*;
use vstd::relations::{sorted_by, total_ordering};

use crate::allocate::{
    chars_le, chars_le_exec, lemma_chars_le_antisymmetric, lemma_chars_le_reflexive,
    lemma_chars_le_total, lemma_chars_le_transitive,
};
use crate::cell_records::{cell_fault, cell_locator, record_row, text_view, whole_value, CellRecord};
use crate::args::MAX_SHAPE_NESTING;
use crate::cell_records::Whole;
use crate::model::{CellLocator, CellRow, CellSnapshot, EditError, EditResult, ShapeSnapshot};
use crate::orders::items_view;
use crate::shape_tree::{find_shape, Sheets};
use crate::shape_tree::field_text;
use crate::text::{owned, str_eq};

verus! {

/// Text ordered as `Option<String>` orders: absent first, then by code point.
pub open spec fn opt_text_le(a: Option<Seq<char>>, b: Option<Seq<char>>) -> bool {
    match (a, b) {
        (None, _) => true,
        (Some(_), None) => false,
        (Some(x), Some(y)) => chars_le(x, y),
    }
}

pub open spec fn opt_u32_le(a: Option<u32>, b: Option<u32>) -> bool {
    match (a, b) {
        (None, _) => true,
        (Some(_), None) => false,
        (Some(x), Some(y)) => x <= y,
    }
}

/// The key a snapshot cell sorts by: section, section index (absent counting as zero), row
/// index, row name, cell name; then its position in the cell map, which keeps equal keys in
/// map order.
pub type CellKey = (Option<Seq<char>>, u32, Option<u32>, Option<Seq<char>>, Seq<char>, int);

pub open spec fn key_le(x: CellKey, y: CellKey) -> bool {
    if x.0 != y.0 {
        opt_text_le(x.0, y.0)
    } else if x.1 != y.1 {
        x.1 <= y.1
    } else if x.2 != y.2 {
        opt_u32_le(x.2, y.2)
    } else if x.3 != y.3 {
        opt_text_le(x.3, y.3)
    } else if x.4 != y.4 {
        chars_le(x.4, y.4)
    } else {
        x.5 <= y.5
    }
}

proof fn lemma_opt_text_le(a: Option<Seq<char>>, b: Option<Seq<char>>, c: Option<Seq<char>>)
    ensures
        opt_text_le(a, a),
        opt_text_le(a, b) && opt_text_le(b, a) ==> a == b,
        opt_text_le(a, b) && opt_text_le(b, c) ==> opt_text_le(a, c),
        opt_text_le(a, b) || opt_text_le(b, a),
{
    match (a, b, c) {
        (Some(x), Some(y), Some(z)) => {
            lemma_chars_le_reflexive(x);
            if chars_le(x, y) && chars_le(y, x) {
                lemma_chars_le_antisymmetric(x, y);
            }
            if chars_le(x, y) && chars_le(y, z) {
                lemma_chars_le_transitive(x, y, z);
            }
            lemma_chars_le_total(x, y);
        },
        (Some(x), Some(y), None) => {
            lemma_chars_le_reflexive(x);
            if chars_le(x, y) && chars_le(y, x) {
                lemma_chars_le_antisymmetric(x, y);
            }
            lemma_chars_le_total(x, y);
        },
        (Some(x), _, _) => {
            lemma_chars_le_reflexive(x);
        },
        _ => {},
    }
}

pub open spec fn key_order() -> spec_fn(CellKey, CellKey) -> bool {
    |x: CellKey, y: CellKey| key_le(x, y)
}

proof fn lemma_key_order_total()
    ensures
        total_ordering(key_order()),
{
    let leq = key_order();
    assert forall|x: CellKey| #[trigger] leq(x, x) by {
        lemma_opt_text_le(x.0, x.0, x.0);
    }
    assert forall|x: CellKey, y: CellKey| #[trigger] leq(x, y) && #[trigger] leq(y, x) implies x == y by {
        lemma_opt_text_le(x.0, y.0, y.0);
        lemma_opt_text_le(x.3, y.3, y.3);
        if x.0 == y.0 && x.1 == y.1 && x.2 == y.2 && x.3 == y.3 && x.4 != y.4 {
            lemma_chars_le_antisymmetric(x.4, y.4);
        }
    }
    assert forall|x: CellKey, y: CellKey, z: CellKey| #[trigger] leq(x, y) && #[trigger] leq(y, z) implies leq(x, z) by {
        lemma_opt_text_le(x.0, y.0, z.0);
        lemma_opt_text_le(x.3, y.3, z.3);
        lemma_opt_text_le(y.0, x.0, x.0);
        lemma_opt_text_le(z.0, y.0, y.0);
        lemma_opt_text_le(x.0, z.0, z.0);
        lemma_opt_text_le(y.3, x.3, x.3);
        lemma_opt_text_le(z.3, y.3, y.3);
        lemma_opt_text_le(x.3, z.3, z.3);
        if chars_le(x.4, y.4) && chars_le(y.4, x.4) {
            lemma_chars_le_antisymmetric(x.4, y.4);
        }
        if chars_le(y.4, z.4) && chars_le(z.4, y.4) {
            lemma_chars_le_antisymmetric(y.4, z.4);
        }
        if chars_le(x.4, z.4) && chars_le(z.4, x.4) {
            lemma_chars_le_antisymmetric(x.4, z.4);
        }
        if chars_le(x.4, y.4) && chars_le(y.4, z.4) {
            lemma_chars_le_transitive(x.4, y.4, z.4);
        }
    }
    assert forall|x: CellKey, y: CellKey| #[trigger] leq(x, y) || #[trigger] leq(y, x) by {
        lemma_opt_text_le(x.0, y.0, y.0);
        lemma_opt_text_le(x.3, y.3, y.3);
        lemma_chars_le_total(x.4, y.4);
    }
}

/// What a snapshot reads of one cell of a shape's cell map: its record (`None` where the value
/// is no map), its `formula`, `baselineFormula` and cached `value` where they are strings, and
/// what its formula evaluates to against the shape's own cells, where it evaluates.
#[derive(Clone, Debug, PartialEq, Eq)]
pub struct SnapshotCellSource {
    pub record: Option<CellRecord>,
    pub formula: Option<String>,
    pub baseline: Option<String>,
    pub value: Option<String>,
    pub evaluated: Option<String>,
}

/// A cell's snapshot value: its formula's evaluation; where the formula is still the
/// baseline and does not evaluate, the cached value.
pub open spec fn snapshot_value(cell: SnapshotCellSource) -> Option<Seq<char>> {
    let evaluated = match cell.formula {
        Some(_) => text_view(cell.evaluated),
        None => None,
    };
    if text_view(cell.formula) == text_view(cell.baseline) && evaluated is None {
        text_view(cell.value)
    } else {
        evaluated
    }
}

/// A cell whose formula was edited away from its save baseline shows exactly what that formula
/// evaluates to, and nothing where it does not evaluate: the cached value, computed for the
/// baseline, is shown only while the formula is the baseline. A formula that evaluates always
/// shows its evaluation. A cell without a formula shows its cached value only where it has no
/// baseline either.
pub proof fn lemma_snapshot_value_source(cells: Seq<SnapshotCellSource>, page_id: u32, source_id: u32, i: int)
    requires
        0 <= i < cells.len(),
    ensures
        cells[i].formula is None ==> expected_snapshot(cells, page_id, source_id, i).9 == (if cells[i].baseline is None {
            text_view(cells[i].value)
        } else {
            None
        }),
        cells[i].formula is Some && text_view(cells[i].formula) != text_view(cells[i].baseline) ==> expected_snapshot(
            cells,
            page_id,
            source_id,
            i,
        ).9 == text_view(cells[i].evaluated),
        cells[i].formula is Some && cells[i].evaluated is Some ==> expected_snapshot(cells, page_id, source_id, i).9
            == text_view(cells[i].evaluated),
        cells[i].formula is Some && expected_snapshot(cells, page_id, source_id, i).9 != text_view(cells[i].evaluated) ==> text_view(
            cells[i].formula,
        ) == text_view(cells[i].baseline) && expected_snapshot(cells, page_id, source_id, i).9 == text_view(
            cells[i].value,
        ),
{
}

/// The first fault among the cells from the `k`-th on.
pub open spec fn first_snapshot_fault(cells: Seq<SnapshotCellSource>, k: int) -> Option<Seq<char>>
    decreases cells.len() - k,
{
    if k < 0 || k >= cells.len() {
        None
    } else {
        match cells[k].record {
            None => Some("cell is not a map"@),
            Some(record) => match cell_fault(record) {
                Some(message) => Some(message),
                None => first_snapshot_fault(cells, k + 1),
            },
        }
    }
}

pub open spec fn row_index_of(row: Option<CellRow>) -> Option<u32> {
    match row {
        Some(CellRow::Index(i)) => Some(i),
        _ => None,
    }
}

pub open spec fn row_name_of(row: Option<CellRow>) -> Option<Seq<char>> {
    match row {
        Some(CellRow::Name(n)) => Some(n@),
        _ => None,
    }
}

pub open spec fn zero_or(index: Option<u32>) -> u32 {
    match index {
        Some(i) => i,
        None => 0,
    }
}

/// The sort key of a snapshot cell at position `pos` of the cell map.
pub open spec fn snapshot_key(cell: CellSnapshot, pos: int) -> CellKey {
    (
        text_view(cell.locator.section),
        zero_or(cell.locator.section_index),
        row_index_of(cell.locator.row),
        row_name_of(cell.locator.row),
        cell.name@,
        pos,
    )
}

pub type SnapshotView = (
    Option<Seq<char>>,
    Seq<char>,
    crate::model::CellSheet,
    Option<u32>,
    Option<Seq<char>>,
    Option<u32>,
    Option<Result<u32, Seq<char>>>,
    Seq<char>,
    Option<Seq<char>>,
    Option<Seq<char>>,
);

pub open spec fn snapshot_view(cell: CellSnapshot) -> SnapshotView {
    (
        text_view(cell.row_type),
        cell.name@,
        cell.locator.sheet,
        cell.locator.shape_id,
        text_view(cell.locator.section),
        cell.locator.section_index,
        crate::cell_records::row_view(cell.locator.row),
        cell.locator.cell_name@,
        text_view(cell.formula),
        text_view(cell.value),
    )
}

/// The snapshot of the `i`-th cell, as plain values.
pub open spec fn expected_snapshot(cells: Seq<SnapshotCellSource>, page_id: u32, source_id: u32, i: int) -> SnapshotView {
    let record = cells[i].record.unwrap();
    let name = field_text(record.name).unwrap();
    (
        field_text(record.row_type),
        name,
        crate::model::CellSheet::Page(page_id),
        Some(source_id),
        field_text(record.section),
        whole_value(record.section_index),
        record_row(record),
        name,
        text_view(cells[i].formula),
        snapshot_value(cells[i]),
    )
}

/// The sort key of the `i`-th cell.
pub open spec fn expected_key(cells: Seq<SnapshotCellSource>, i: int) -> CellKey {
    let record = cells[i].record.unwrap();
    let row = record_row(record);
    (
        field_text(record.section),
        zero_or(whole_value(record.section_index)),
        match row {
            Some(Ok(index)) => Some(index),
            _ => None,
        },
        match row {
            Some(Err(name)) => Some(name),
            _ => None,
        },
        field_text(record.name).unwrap(),
        i,
    )
}

pub open spec fn expected_keys(cells: Seq<SnapshotCellSource>) -> Seq<CellKey> {
    Seq::new(cells.len(), |i: int| expected_key(cells, i))
}

fn copy_text(s: &Option<String>) -> (result: Option<String>)
    ensures
        text_view(result) == text_view(*s),
{
    match s {
        Some(t) => Some(owned(t.as_str())),
        None => None,
    }
}

fn field_string(field: &crate::shape_tree::Field) -> (result: Option<String>)
    ensures
        text_view(result) == field_text(*field),
{
    match field {
        crate::shape_tree::Field::Text(t) => Some(owned(t.as_str())),
        _ => None,
    }
}

fn opt_text_le_exec(a: &Option<String>, b: &Option<String>) -> (result: bool)
    ensures
        result == opt_text_le(text_view(*a), text_view(*b)),
{
    match (a, b) {
        (None, _) => true,
        (Some(_), None) => false,
        (Some(x), Some(y)) => chars_le_exec(x.as_str(), y.as_str()),
    }
}

fn opt_text_eq(a: &Option<String>, b: &Option<String>) -> (result: bool)
    ensures
        result == (text_view(*a) == text_view(*b)),
{
    match (a, b) {
        (None, None) => true,
        (Some(x), Some(y)) => str_eq(x.as_str(), y.as_str()),
        _ => false,
    }
}

fn row_name_string(row: &Option<CellRow>) -> (result: Option<String>)
    ensures
        text_view(result) == row_name_of(*row),
{
    match row {
        Some(CellRow::Name(n)) => Some(owned(n.as_str())),
        _ => None,
    }
}

fn row_index_value(row: &Option<CellRow>) -> (result: Option<u32>)
    ensures
        result == row_index_of(*row),
{
    match row {
        Some(CellRow::Index(i)) => Some(*i),
        _ => None,
    }
}

/// Whether the cell `a` at position `pa` sorts no later than `b` at `pb`.
fn snapshot_key_le(a: &CellSnapshot, pa: usize, b: &CellSnapshot, pb: usize) -> (result: bool)
    ensures
        result == key_le(snapshot_key(*a, pa as int), snapshot_key(*b, pb as int)),
{
    if !opt_text_eq(&a.locator.section, &b.locator.section) {
        return opt_text_le_exec(&a.locator.section, &b.locator.section);
    }
    let ia: u32 = match a.locator.section_index {
        Some(i) => i,
        None => 0,
    };
    let ib: u32 = match b.locator.section_index {
        Some(i) => i,
        None => 0,
    };
    if ia != ib {
        return ia <= ib;
    }
    let ra = row_index_value(&a.locator.row);
    let rb = row_index_value(&b.locator.row);
    if ra != rb {
        return match (ra, rb) {
            (None, _) => true,
            (Some(_), None) => false,
            (Some(x), Some(y)) => x <= y,
        };
    }
    let na = row_name_string(&a.locator.row);
    let nb = row_name_string(&b.locator.row);
    if !opt_text_eq(&na, &nb) {
        return opt_text_le_exec(&na, &nb);
    }
    if !str_eq(a.name.as_str(), b.name.as_str()) {
        return chars_le_exec(a.name.as_str(), b.name.as_str());
    }
    pa <= pb
}

/// The snapshots of a shape's cells, in the cell map's order, before sorting.
fn build_snapshots(cells: &Vec<SnapshotCellSource>, page_id: u32, source_id: u32) -> (result: EditResult<Vec<CellSnapshot>>)
    ensures
        match first_snapshot_fault(cells@, 0) {
            Some(message) => result matches Err(EditError::InvalidState(m)) && m@ == message,
            None => result matches Ok(built) && built@.len() == cells@.len() && forall|i: int|
                0 <= i < built@.len() ==> snapshot_view(#[trigger] built@[i]) == expected_snapshot(cells@, page_id, source_id, i)
                    && snapshot_key(built@[i], i) == expected_key(cells@, i),
        },
{
    let mut built: Vec<CellSnapshot> = Vec::new();
    let mut k: usize = 0;
    while k < cells.len()
        invariant
            k <= cells@.len(),
            built@.len() == k,
            first_snapshot_fault(cells@, 0) == first_snapshot_fault(cells@, k as int),
            forall|i: int| 0 <= i < k ==> #[trigger] cells@[i].record is Some && cell_fault(cells@[i].record.unwrap()) is None,
            forall|i: int|
                0 <= i < built@.len() ==> snapshot_view(#[trigger] built@[i]) == expected_snapshot(cells@, page_id, source_id, i)
                    && snapshot_key(built@[i], i) == expected_key(cells@, i),
        decreases cells@.len() - k,
    {
        let cell = &cells[k];
        let record = match &cell.record {
            None => {
                return Err(EditError::InvalidState(owned("cell is not a map")));
            },
            Some(record) => record,
        };
        let locator = cell_locator(record, page_id, source_id)?;
        let evaluated = match &cell.formula {
            Some(_) => copy_text(&cell.evaluated),
            None => None,
        };
        let value = if opt_text_eq(&cell.formula, &cell.baseline) && evaluated.is_none() {
            copy_text(&cell.value)
        } else {
            evaluated
        };
        let snapshot = CellSnapshot {
            row_type: field_string(&record.row_type),
            name: owned(locator.cell_name.as_str()),
            locator,
            formula: copy_text(&cell.formula),
            value,
        };
        proof {
            assert(crate::cell_records::row_view(snapshot.locator.row) == record_row(*record));
        }
        built.push(snapshot);
        k = k + 1;
    }
    Ok(built)
}

/// The snapshots of a shape's cells (shape `source_id` on page `page_id`): each cell's locator,
/// row type, formula and value (its formula's evaluation; where the formula is still the
/// baseline and does not evaluate, the cached value), sorted by section, section index, row
/// and name, cells with equal keys in the cell map's order.
pub fn snapshot_cells(cells: &Vec<SnapshotCellSource>, page_id: u32, source_id: u32) -> (result: EditResult<Vec<CellSnapshot>>)
    ensures
        match first_snapshot_fault(cells@, 0) {
            Some(message) => result matches Err(EditError::InvalidState(m)) && m@ == message,
            None => result matches Ok(sorted) && sorted@.map_values(|c: CellSnapshot| snapshot_view(c))
                == expected_keys(cells@).sort_by(key_order()).map_values(
                |key: CellKey| expected_snapshot(cells@, page_id, source_id, key.5),
            ),
        },
{
    broadcast use vstd::seq_lib::group_to_multiset_ensures;

    let built = build_snapshots(cells, page_id, source_id)?;
    let ghost leq = key_order();
    proof {
        lemma_key_order_total();
    }
    let ghost all = expected_keys(cells@);
    let ghost view_of = |key: CellKey| expected_snapshot(cells@, page_id, source_id, key.5);
    let mut out: Vec<CellSnapshot> = Vec::new();
    let mut positions: Vec<usize> = Vec::new();
    let mut i: usize = 0;
    while i < built.len()
        invariant
            i <= built@.len() == cells@.len(),
            all == expected_keys(cells@),
            all.len() == cells@.len(),
            leq == key_order(),
            total_ordering(leq),
            view_of == |key: CellKey| expected_snapshot(cells@, page_id, source_id, key.5),
            forall|t: int|
                0 <= t < built@.len() ==> snapshot_view(#[trigger] built@[t]) == expected_snapshot(cells@, page_id, source_id, t)
                    && snapshot_key(built@[t], t) == expected_key(cells@, t),
            out@.len() == positions@.len(),
            forall|t: int| 0 <= t < out@.len() ==> #[trigger] positions@[t] < built@.len()
                && snapshot_view(out@[t]) == snapshot_view(built@[positions@[t] as int])
                && snapshot_key(out@[t], positions@[t] as int) == all[positions@[t] as int],
            sorted_by(Seq::new(out@.len(), |t: int| all[positions@[t] as int]), leq),
            Seq::new(out@.len(), |t: int| all[positions@[t] as int]).to_multiset() == all.take(i as int).to_multiset(),
        decreases built@.len() - i,
    {
        let ghost before = Seq::new(out@.len(), |t: int| all[positions@[t] as int]);
        let ghost v = all[i as int];
        let mut p: usize = 0;
        while p < out.len() && snapshot_key_le(&out[p], positions[p], &built[i], i)
            invariant
                p <= out@.len(),
                out@.len() == positions@.len(),
                i < built@.len() == cells@.len(),
                all.len() == cells@.len(),
                before == Seq::new(out@.len(), |t: int| all[positions@[t] as int]),
                v == all[i as int],
                snapshot_key(built@[i as int], i as int) == expected_key(cells@, i as int),
                all == expected_keys(cells@),
                leq == key_order(),
                forall|t: int| 0 <= t < out@.len() ==> #[trigger] positions@[t] < built@.len()
                    && snapshot_key(out@[t], positions@[t] as int) == all[positions@[t] as int],
                forall|k: int| 0 <= k < p ==> #[trigger] leq(before[k], v),
            decreases out@.len() - p,
        {
            assert(before[p as int] == all[positions@[p as int] as int]);
            p = p + 1;
        }
        assert forall|k: int| p <= k < before.len() implies #[trigger] leq(v, before[k]) by {
            assert(!leq(before[p as int], v));
            assert(leq(v, before[p as int]));
            if k > p {
                assert(leq(before[p as int], before[k]));
            }
        }
        let copy = CellSnapshot {
            row_type: copy_text(&built[i].row_type),
            name: owned(built[i].name.as_str()),
            locator: CellLocator {
                sheet: built[i].locator.sheet,
                shape_id: built[i].locator.shape_id,
                section: copy_text(&built[i].locator.section),
                section_index: built[i].locator.section_index,
                row: match &built[i].locator.row {
                    Some(CellRow::Index(x)) => Some(CellRow::Index(*x)),
                    Some(CellRow::Name(n)) => Some(CellRow::Name(owned(n.as_str()))),
                    None => None,
                },
                cell_name: owned(built[i].locator.cell_name.as_str()),
            },
            formula: copy_text(&built[i].formula),
            value: copy_text(&built[i].value),
        };
        assert(snapshot_view(copy) == snapshot_view(built@[i as int]));
        assert(snapshot_key(copy, i as int) == snapshot_key(built@[i as int], i as int));
        out.insert(p, copy);
        positions.insert(p, i);
        proof {
            let after = Seq::new(out@.len(), |t: int| all[positions@[t] as int]);
            assert(after =~= before.insert(p as int, v));
            before.insert_ensures(p as int, v);
            vstd::seq_lib::to_multiset_insert(before, p as int, v);
            assert forall|a: int, b: int| 0 <= a < b < after.len() implies #[trigger] leq(after[a], after[b]) by {
                if b < p {
                } else if b == p {
                } else if a < p {
                    assert(after[b] == before[b - 1]);
                    assert(leq(before[a], v));
                    assert(leq(v, before[b - 1]));
                } else if a == p {
                    assert(after[b] == before[b - 1]);
                } else {
                    assert(after[b] == before[b - 1]);
                    assert(after[a] == before[a - 1]);
                }
            }
            assert(all.take(i + 1) =~= all.take(i as int).push(v));
            vstd::seq_lib::to_multiset_build(all.take(i as int), v);
        }
        i = i + 1;
    }
    proof {
        let keys = Seq::new(out@.len(), |t: int| all[positions@[t] as int]);
        assert(all.take(all.len() as int) =~= all);
        all.lemma_sort_by_ensures(leq);
        vstd::seq_lib::lemma_sorted_unique(keys, all.sort_by(leq), leq);
        assert forall|t: int| 0 <= t < out@.len() implies #[trigger] snapshot_view(out@[t]) == view_of(keys[t]) by {
            assert(keys[t] == all[positions@[t] as int]);
            assert(all[positions@[t] as int].5 == positions@[t] as int);
        }
        assert(out@.map_values(|c: CellSnapshot| snapshot_view(c)) =~= keys.map_values(view_of));
    }
    Ok(out)
}

/// What a snapshot reads of a shape beyond its place in the tree: its `sourceId` read as a
/// 32-bit ID (`None` where it is no number), `master`, `name`, its cells (`None` where it has no
/// cell map), whether its cells resolve as references of each other (the resolver's error
/// where they do not), and its copy fields.
#[derive(Clone, Debug, PartialEq, Eq)]
pub struct SnapshotDetails {
    pub source_number: Option<u32>,
    pub master: Whole,
    pub name: Option<String>,
    pub cells: Option<Vec<SnapshotCellSource>>,
    pub references: Option<String>,
    pub copy_source_id: Whole,
    pub copy_source_page_id: Whole,
    pub copy_refusal: Option<String>,
}

/// The source ID a snapshot gives shape `id`: the one the save allocated, else its stored one.
pub open spec fn allocated_source(source_ids: Seq<(String, u32)>, id: Seq<char>, stored: u32) -> u32 {
    if exists|i: int| 0 <= i < source_ids.len() && #[trigger] source_ids[i].0@ == id {
        source_ids[choose|i: int| 0 <= i < source_ids.len() && #[trigger] source_ids[i].0@ == id].1
    } else {
        stored
    }
}

pub open spec fn sheet_pos(sheets: &Sheets, id: Seq<char>) -> int {
    choose|i: int| 0 <= i < sheets.entries@.len() && #[trigger] sheets.entries@[i].key@ == id
}

/// Why the snapshot of shape `id` at `depth` fails, if it does, in the order it reads: the
/// nesting bound, the shape, its source ID, master, cell map, references and cells; then each
/// child in order (a child that is not a string, or whose snapshot fails); then its copy
/// fields.
pub open spec fn snapshot_fault(
    sheets: &Sheets,
    details: Seq<SnapshotDetails>,
    source_ids: Seq<(String, u32)>,
    page_id: u32,
    id: Seq<char>,
    depth: int,
) -> Option<(bool, Seq<char>)>
    decreases MAX_SHAPE_NESTING + 1 - depth, 0int,
{
    if depth > MAX_SHAPE_NESTING || depth < 1 {
        Some((false, "shape nesting exceeds maximum depth"@))
    } else {
        match sheets.shape_of(id) {
            None => Some((true, id)),
            Some(shape) => {
                let d = details[sheet_pos(sheets, id)];
                match d.source_number {
                    None => Some((false, "missing source ID"@)),
                    Some(stored) => if d.master is Other {
                        Some((false, "master is not an unsigned 32-bit integer"@))
                    } else {
                        match d.cells {
                            None => Some((false, "missing cells map"@)),
                            Some(cells) => match d.references {
                                Some(message) => Some((false, message@)),
                                None => match first_snapshot_fault(cells@, 0) {
                                    Some(message) => Some((false, message)),
                                    None => match (match shape.children {
                                        Some(children) => children_fault(sheets, details, source_ids, page_id, items_view(children@), 0, depth + 1),
                                        None => None,
                                    }) {
                                        Some(fault) => Some(fault),
                                        None => if d.copy_source_id is Other {
                                            Some((false, "copySourceId is not an unsigned 32-bit integer"@))
                                        } else if d.copy_source_page_id is Other {
                                            Some((false, "copySourcePageId is not an unsigned 32-bit integer"@))
                                        } else {
                                            None
                                        },
                                    },
                                },
                            },
                        }
                    },
                }
            },
        }
    }
}

/// The first fault among the children from the `k`-th on.
pub open spec fn children_fault(
    sheets: &Sheets,
    details: Seq<SnapshotDetails>,
    source_ids: Seq<(String, u32)>,
    page_id: u32,
    kids: Seq<Option<Seq<char>>>,
    k: int,
    depth: int,
) -> Option<(bool, Seq<char>)>
    decreases MAX_SHAPE_NESTING + 1 - depth, kids.len() - k + 1,
{
    if k < 0 || k >= kids.len() || depth > MAX_SHAPE_NESTING + 1 || depth < 1 {
        None
    } else {
        match kids[k] {
            None => Some((false, "shape order contains non-string"@)),
            Some(child) => match snapshot_fault(sheets, details, source_ids, page_id, child, depth) {
                Some(fault) => Some(fault),
                None => children_fault(sheets, details, source_ids, page_id, kids, k + 1, depth),
            },
        }
    }
}

/// `snapshot` is the snapshot of shape `id` at `depth`: its ID, source ID (the allocated one,
/// else the stored one), name, master, sorted cells, copy fields, and each child's snapshot in
/// order.
pub open spec fn snapshot_of(
    snapshot: ShapeSnapshot,
    sheets: &Sheets,
    details: Seq<SnapshotDetails>,
    source_ids: Seq<(String, u32)>,
    page_id: u32,
    id: Seq<char>,
    depth: int,
) -> bool
    decreases MAX_SHAPE_NESTING + 1 - depth,
{
    if depth > MAX_SHAPE_NESTING || depth < 1 {
        false
    } else {
        match sheets.shape_of(id) {
            None => false,
            Some(shape) => {
                let d = details[sheet_pos(sheets, id)];
                let source = allocated_source(source_ids, id, d.source_number.unwrap());
                let cells = d.cells.unwrap()@;
                &&& snapshot.id@ == id
                &&& snapshot.source_id == source
                &&& text_view(snapshot.name) == text_view(d.name)
                &&& snapshot.master == whole_value(d.master)
                &&& snapshot.copy_source_id == whole_value(d.copy_source_id)
                &&& snapshot.copy_source_page_id == whole_value(d.copy_source_page_id)
                &&& text_view(snapshot.copy_refusal) == text_view(d.copy_refusal)
                &&& snapshot.cells@.map_values(|c: CellSnapshot| snapshot_view(c)) == expected_keys(cells).sort_by(key_order()).map_values(
                    |key: CellKey| expected_snapshot(cells, page_id, source, key.5),
                )
                &&& match shape.children {
                    None => snapshot.children@.len() == 0,
                    Some(children) => {
                        let kids = items_view(children@);
                        &&& snapshot.children@.len() == kids.len()
                        &&& forall|k: int| 0 <= k < kids.len() ==> snapshot_of(#[trigger] snapshot.children@[k], sheets, details, source_ids, page_id, kids[k].unwrap(), depth + 1)
                    },
                }
            },
        }
    }
}

fn whole_option(field: Whole) -> (result: Option<u32>)
    ensures
        result == whole_value(field),
{
    match field {
        Whole::Value(v) => Some(v),
        _ => None,
    }
}

fn allocated_id(source_ids: &Vec<(String, u32)>, id: &str, stored: u32) -> (result: u32)
    requires
        forall|i: int, j: int| 0 <= i < j < source_ids@.len() ==> #[trigger] source_ids@[i].0@ != #[trigger] source_ids@[j].0@,
    ensures
        result == allocated_source(source_ids@, id@, stored),
{
    let mut i: usize = 0;
    while i < source_ids.len()
        invariant
            i <= source_ids@.len(),
            forall|a: int, b: int| 0 <= a < b < source_ids@.len() ==> #[trigger] source_ids@[a].0@ != #[trigger] source_ids@[b].0@,
            forall|t: int| 0 <= t < i ==> #[trigger] source_ids@[t].0@ != id@,
        decreases source_ids@.len() - i,
    {
        if str_eq(source_ids[i].0.as_str(), id) {
            proof {
                let k = choose|k: int| 0 <= k < source_ids@.len() && #[trigger] source_ids@[k].0@ == id@;
                if k != i as int {
                    assert(source_ids@[k].0@ != source_ids@[i as int].0@);
                }
            }
            return source_ids[i].1;
        }
        i = i + 1;
    }
    stored
}

/// The snapshot of shape `shape_id` of page `page_id` (its numeric ID), `depth` levels down the
/// page's tree, with its cells sorted and its children's snapshots in order: `sheets` and
/// `details` describe the sheets map position by position, and `source_ids` gives the source
/// IDs a save allocated, by session ID.
#[verifier::loop_isolation(false)]
pub fn snapshot_shape(
    sheets: &Sheets,
    details: &Vec<SnapshotDetails>,
    source_ids: &Vec<(String, u32)>,
    page_id: u32,
    shape_id: &str,
    depth: usize,
) -> (result: EditResult<ShapeSnapshot>)
    requires
        sheets.wf(),
        details@.len() == sheets.entries@.len(),
        forall|i: int, j: int| 0 <= i < j < source_ids@.len() ==> #[trigger] source_ids@[i].0@ != #[trigger] source_ids@[j].0@,
        1 <= depth <= MAX_SHAPE_NESTING + 1,
    ensures
        match snapshot_fault(sheets, details@, source_ids@, page_id, shape_id@, depth as int) {
            Some(fault) => result matches Err(error) && crate::subtree::walk_error(error, fault),
            None => result matches Ok(snapshot) && snapshot_of(snapshot, sheets, details@, source_ids@, page_id, shape_id@, depth as int),
        },
    decreases MAX_SHAPE_NESTING + 1 - depth, 0int,
{
    if depth > MAX_SHAPE_NESTING {
        return Err(EditError::InvalidState(owned("shape nesting exceeds maximum depth")));
    }
    let o = match find_shape(sheets, shape_id) {
        None => {
            return Err(EditError::PageNotFound(owned(shape_id)));
        },
        Some(o) => o,
    };
    proof {
        let p = sheet_pos(sheets, shape_id@);
        assert(0 <= p < sheets.entries@.len() && sheets.entries@[p].key@ == shape_id@);
        assert(p == o as int);
    }
    let shape = match &sheets.entries[o].shape {
        Some(shape) => shape,
        None => {
            return Err(EditError::PageNotFound(owned(shape_id)));
        },
    };
    let d = &details[o];
    let stored = match d.source_number {
        Some(stored) => stored,
        None => {
            return Err(EditError::InvalidState(owned("missing source ID")));
        },
    };
    let source = allocated_id(source_ids, shape_id, stored);
    if let Whole::Other = d.master {
        return Err(EditError::InvalidState(owned("master is not an unsigned 32-bit integer")));
    }
    let cells = match &d.cells {
        Some(cells) => cells,
        None => {
            return Err(EditError::InvalidState(owned("missing cells map")));
        },
    };
    if let Some(message) = &d.references {
        return Err(EditError::InvalidState(message.clone()));
    }
    let snapshots = snapshot_cells(cells, page_id, source)?;
    let mut children: Vec<ShapeSnapshot> = Vec::new();
    if let Some(kids) = &shape.children {
        let ghost kv = items_view(kids@);
        let mut k: usize = 0;
        while k < kids.len()
            invariant
                k <= kids@.len(),
                kv == items_view(kids@),
                children@.len() == k,
                children_fault(sheets, details@, source_ids@, page_id, kv, 0, depth + 1) == children_fault(sheets, details@, source_ids@, page_id, kv, k as int, depth + 1),
                forall|t: int| 0 <= t < k ==> #[trigger] kv[t] is Some && snapshot_of(children@[t], sheets, details@, source_ids@, page_id, kv[t].unwrap(), depth + 1),
            decreases kids@.len() - k,
        {
            assert(kv[k as int] == crate::orders::item_view(kids@[k as int]));
            let child = match &kids[k] {
                Some(child) => child,
                None => {
                    return Err(EditError::InvalidState(owned("shape order contains non-string")));
                },
            };
            let snapshot = snapshot_shape(sheets, details, source_ids, page_id, child.as_str(), depth + 1)?;
            children.push(snapshot);
            k = k + 1;
        }
    }
    if let Whole::Other = d.copy_source_id {
        return Err(EditError::InvalidState(owned("copySourceId is not an unsigned 32-bit integer")));
    }
    if let Whole::Other = d.copy_source_page_id {
        return Err(EditError::InvalidState(owned("copySourcePageId is not an unsigned 32-bit integer")));
    }
    Ok(ShapeSnapshot {
        id: owned(shape_id),
        source_id: source,
        name: copy_text(&d.name),
        master: whole_option(d.master),
        cells: snapshots,
        children,
        copy_source_id: whole_option(d.copy_source_id),
        copy_source_page_id: whole_option(d.copy_source_page_id),
        copy_refusal: copy_text(&d.copy_refusal),
    })
}

} // verus!
