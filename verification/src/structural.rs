//! Structural edits of a save: which original shapes of a container are deleted, and how the
//! survivors and the added shapes are moved into the session's order.
use vstd::prelude::*;

use crate::connect::{find_source, source_lookup, sources_view};
use crate::model::{invalid_state, DiagramSnapshot, EditError, EditResult, PageSnapshot};
use crate::text::{decimal, owned, push_decimal, push_str, str_eq};

verus! {

/// A change the save applies to the package structure.
#[derive(Clone, Debug, PartialEq, Eq)]
pub enum StructuralEdit {
    ReorderPages { page_ids: Vec<u32> },
    AddShape { page_id: u32, shape_xml: Vec<u8> },
    DeleteShape { page_id: u32, shape_id: u32 },
    ReorderShape { page_id: u32, shape_id: u32, before_shape_id: Option<u32> },
    AddConnect {
        page_id: u32,
        from_sheet: u32,
        from_cell: String,
        to_sheet: u32,
        to_cell: String,
    },
}

/// One shape of the session's tree for a page: its session ID, parent, source ID and origin.
#[derive(Clone, Debug, PartialEq, Eq)]
pub struct StructuralShapeEntry {
    pub id: String,
    pub parent_id: Option<String>,
    pub source_id: u32,
    pub is_original: bool,
}

/// The session keeps original shape `x` in this container.
pub open spec fn kept(desired: Seq<&StructuralShapeEntry>, x: u32) -> bool {
    exists|j: int| 0 <= j < desired.len() && #[trigger] desired[j].is_original && desired[j].source_id == x
}

/// A delete for each original shape the session no longer keeps, in original order.
pub open spec fn delete_edits(page_id: u32, originals: Seq<u32>, desired: Seq<&StructuralShapeEntry>) -> Seq<
    StructuralEdit,
>
    decreases originals.len(),
{
    if originals.len() == 0 {
        Seq::empty()
    } else {
        let rest = delete_edits(page_id, originals.drop_last(), desired);
        if kept(desired, originals.last()) {
            rest
        } else {
            rest.push(StructuralEdit::DeleteShape { page_id, shape_id: originals.last() })
        }
    }
}

/// The original shapes the session keeps, in original order.
pub open spec fn kept_originals(originals: Seq<u32>, desired: Seq<&StructuralShapeEntry>) -> Seq<u32>
    decreases originals.len(),
{
    if originals.len() == 0 {
        Seq::empty()
    } else {
        let rest = kept_originals(originals.drop_last(), desired);
        if kept(desired, originals.last()) {
            rest.push(originals.last())
        } else {
            rest
        }
    }
}

/// The source ID a desired shape has: its own if original, else the one allocated for it.
pub open spec fn desired_id(entry: StructuralShapeEntry, added: Seq<(Seq<char>, u32)>) -> Option<u32> {
    if entry.is_original {
        Some(entry.source_id)
    } else {
        source_lookup(added, entry.id@)
    }
}

/// The added shape at `j` has no allocated source ID.
pub open spec fn missing_at(desired: Seq<&StructuralShapeEntry>, added: Seq<(Seq<char>, u32)>, j: int) -> bool {
    desired_id(*desired[j], added) is None
}

/// The allocated IDs of the added shapes, in desired order.
pub open spec fn added_ids(desired: Seq<&StructuralShapeEntry>, added: Seq<(Seq<char>, u32)>) -> Seq<u32>
    decreases desired.len(),
{
    if desired.len() == 0 {
        Seq::empty()
    } else {
        let rest = added_ids(desired.drop_last(), added);
        if desired.last().is_original {
            rest
        } else {
            rest.push(desired_id(*desired.last(), added).unwrap())
        }
    }
}

/// The source IDs of the desired shapes, in desired order.
pub open spec fn desired_ids(desired: Seq<&StructuralShapeEntry>, added: Seq<(Seq<char>, u32)>) -> Seq<u32> {
    desired.map_values(|entry: &StructuralShapeEntry| desired_id(*entry, added).unwrap())
}

/// The container's order once deletes are done and added shapes appended.
pub open spec fn start_order(
    originals: Seq<u32>,
    desired: Seq<&StructuralShapeEntry>,
    added: Seq<(Seq<char>, u32)>,
) -> Seq<u32> {
    kept_originals(originals, desired) + added_ids(desired, added)
}

/// `order` without the elements of `placed`, in order.
pub open spec fn remaining(order: Seq<u32>, placed: Seq<u32>) -> Seq<u32>
    decreases order.len(),
{
    if order.len() == 0 {
        Seq::empty()
    } else {
        let rest = remaining(order.drop_last(), placed);
        if placed.contains(order.last()) {
            rest
        } else {
            rest.push(order.last())
        }
    }
}

/// The move placing `ids[i]` at position `i`, unless it is already there: before the first
/// shape not yet placed, or at the end when none is left.
pub open spec fn step_edit(page_id: u32, order: Seq<u32>, ids: Seq<u32>, i: int) -> Option<StructuralEdit> {
    let rest = remaining(order, ids.take(i));
    if rest.len() > 0 && rest[0] == ids[i] {
        None
    } else {
        Some(
            StructuralEdit::ReorderShape {
                page_id,
                shape_id: ids[i],
                before_shape_id: if rest.len() > 0 {
                    Some(rest[0])
                } else {
                    None
                },
            },
        )
    }
}

/// The moves for the first `n` positions.
pub open spec fn reorder_edits(page_id: u32, order: Seq<u32>, ids: Seq<u32>, n: int) -> Seq<StructuralEdit>
    decreases n,
{
    if n <= 0 {
        Seq::empty()
    } else {
        let rest = reorder_edits(page_id, order, ids, n - 1);
        match step_edit(page_id, order, ids, n - 1) {
            Some(edit) => rest.push(edit),
            None => rest,
        }
    }
}

/// Position of the first element of `s` equal to `x`, or the length when there is none.
pub open spec fn position_of(s: Seq<u32>, x: u32) -> int
    decreases s.len(),
{
    if s.len() == 0 {
        0
    } else if s[0] == x {
        0
    } else {
        1 + position_of(s.drop_first(), x)
    }
}

/// `order` after one edit: a move takes the shape out and puts it back before the named
/// shape, or at the end; a delete takes the shape out; other edits leave the order alone.
pub open spec fn apply_edit(order: Seq<u32>, edit: StructuralEdit) -> Seq<u32> {
    match edit {
        StructuralEdit::ReorderShape { shape_id, before_shape_id, .. } => {
            let without = order.remove(position_of(order, shape_id));
            match before_shape_id {
                Some(before) => without.insert(position_of(without, before), shape_id),
                None => without.push(shape_id),
            }
        },
        StructuralEdit::DeleteShape { shape_id, .. } => order.remove(position_of(order, shape_id)),
        _ => order,
    }
}

/// `order` after the edits, in order.
pub open spec fn apply_edits(order: Seq<u32>, edits: Seq<StructuralEdit>) -> Seq<u32>
    decreases edits.len(),
{
    if edits.len() == 0 {
        order
    } else {
        apply_edit(apply_edits(order, edits.drop_last()), edits.last())
    }
}

proof fn lemma_remaining_contains(order: Seq<u32>, placed: Seq<u32>, x: u32)
    ensures
        remaining(order, placed).contains(x) <==> (order.contains(x) && !placed.contains(x)),
    decreases order.len(),
{
    if order.len() > 0 {
        lemma_remaining_contains(order.drop_last(), placed, x);
        let rest = remaining(order.drop_last(), placed);
        if order.contains(x) && order.last() != x {
            let k = choose|k: int| 0 <= k < order.len() && order[k] == x;
            assert(order.drop_last()[k] == x);
        }
        if order.drop_last().contains(x) {
            let k = choose|k: int| 0 <= k < order.drop_last().len() && order.drop_last()[k] == x;
            assert(order[k] == x);
        }
        if rest.push(order.last()).contains(x) && x != order.last() {
            let k = choose|k: int| 0 <= k < rest.push(order.last()).len() && rest.push(order.last())[k] == x;
            assert(rest[k] == x);
        }
        if rest.contains(x) {
            let k = choose|k: int| 0 <= k < rest.len() && rest[k] == x;
            assert(rest.push(order.last())[k] == x);
        }
        assert(order[order.len() - 1] == order.last());
        assert(rest.push(order.last())[rest.len() as int] == order.last());
    }
}

proof fn lemma_remaining_distinct(order: Seq<u32>, placed: Seq<u32>)
    requires
        order.no_duplicates(),
    ensures
        remaining(order, placed).no_duplicates(),
    decreases order.len(),
{
    if order.len() > 0 {
        let shorter = order.drop_last();
        assert(shorter.no_duplicates());
        lemma_remaining_distinct(shorter, placed);
        lemma_remaining_contains(shorter, placed, order.last());
        if shorter.contains(order.last()) {
            let k = choose|k: int| 0 <= k < shorter.len() && shorter[k] == order.last();
            assert(order[k] == order[order.len() - 1]);
        }
    }
}

/// Placing one more shape removes exactly that shape from what is left.
proof fn lemma_remaining_push(order: Seq<u32>, placed: Seq<u32>, x: u32, q: int)
    requires
        order.no_duplicates(),
        0 <= q < remaining(order, placed).len(),
        remaining(order, placed)[q] == x,
    ensures
        remaining(order, placed.push(x)) == remaining(order, placed).remove(q),
    decreases order.len(),
{
    let rest = remaining(order, placed);
    let shorter = order.drop_last();
    let y = order.last();
    assert(shorter.no_duplicates());
    lemma_remaining_distinct(order, placed);
    let before = remaining(shorter, placed);
    assert forall|z: u32| placed.push(x).contains(z) <==> (placed.contains(z) || z == x) by {
        if placed.push(x).contains(z) && z != x {
            let k = choose|k: int| 0 <= k < placed.push(x).len() && placed.push(x)[k] == z;
            assert(placed[k] == z);
        }
        if placed.contains(z) {
            let k = choose|k: int| 0 <= k < placed.len() && placed[k] == z;
            assert(placed.push(x)[k] == z);
        }
        if z == x {
            assert(placed.push(x)[placed.len() as int] == x);
        }
    }
    if y == x {
        // `x` is the last element, not in the shorter order, and the last one left
        lemma_remaining_contains(shorter, placed, x);
        if shorter.contains(x) {
            let k = choose|k: int| 0 <= k < shorter.len() && shorter[k] == x;
            assert(order[k] == order[order.len() - 1]);
        }
        lemma_remaining_contains(shorter, placed.push(x), x);
        lemma_remaining_contains(order, placed, x);
        assert(rest == before.push(x));
        if q < before.len() {
            assert(rest[q] == before[q]);
            assert(before.contains(x));
        }
        lemma_remaining_unaffected(shorter, placed, x);
        assert(rest.remove(q) =~= before);
    } else {
        if placed.contains(y) {
            assert(rest == before);
            lemma_remaining_push(shorter, placed, x, q);
        } else {
            assert(rest == before.push(y));
            if q == before.len() {
                assert(rest[q] == y);
            }
            lemma_remaining_push(shorter, placed, x, q);
            assert(rest.remove(q) =~= before.remove(q).push(y));
        }
    }
}

/// Placing a shape that is not in the order changes nothing that is left.
proof fn lemma_remaining_unaffected(order: Seq<u32>, placed: Seq<u32>, x: u32)
    requires
        !order.contains(x),
    ensures
        remaining(order, placed.push(x)) == remaining(order, placed),
    decreases order.len(),
{
    if order.len() > 0 {
        let shorter = order.drop_last();
        assert(!shorter.contains(x)) by {
            if shorter.contains(x) {
                let k = choose|k: int| 0 <= k < shorter.len() && shorter[k] == x;
                assert(order[k] == x);
            }
        }
        lemma_remaining_unaffected(shorter, placed, x);
        assert(order[order.len() - 1] == order.last());
        let y = order.last();
        assert(placed.push(x).contains(y) == placed.contains(y)) by {
            if placed.push(x).contains(y) {
                let k = choose|k: int| 0 <= k < placed.push(x).len() && placed.push(x)[k] == y;
                if k < placed.len() {
                    assert(placed[k] == y);
                }
            }
            if placed.contains(y) {
                let k = choose|k: int| 0 <= k < placed.len() && placed[k] == y;
                assert(placed.push(x)[k] == y);
            }
        }
    }
}

proof fn lemma_position_of(s: Seq<u32>, x: u32, k: int)
    requires
        0 <= k < s.len(),
        s[k] == x,
        forall|j: int| 0 <= j < k ==> s[j] != x,
    ensures
        position_of(s, x) == k,
    decreases k,
{
    if k > 0 {
        lemma_position_of(s.drop_first(), x, k - 1);
    }
}

proof fn lemma_remaining_empty(order: Seq<u32>, ids: Seq<u32>)
    requires
        forall|x: u32| order.contains(x) ==> ids.contains(x),
    ensures
        remaining(order, ids) == Seq::<u32>::empty(),
{
    let rest = remaining(order, ids);
    if rest.len() > 0 {
        lemma_remaining_contains(order, ids, rest[0]);
        assert(rest.contains(rest[0]));
    }
}

/// After the moves for the first `n` positions, those positions hold `ids[..n]` and the rest
/// of the order follows unchanged.
proof fn lemma_reorder_prefix(page_id: u32, order: Seq<u32>, ids: Seq<u32>, n: int)
    requires
        order.no_duplicates(),
        ids.no_duplicates(),
        0 <= n <= ids.len(),
        forall|k: int| 0 <= k < n ==> order.contains(#[trigger] ids[k]),
    ensures
        apply_edits(order, reorder_edits(page_id, order, ids, n)) == ids.take(n) + remaining(
            order,
            ids.take(n),
        ),
    decreases n,
{
    if n == 0 {
        assert(ids.take(0) == Seq::<u32>::empty());
        assert(remaining(order, Seq::<u32>::empty()) == order) by {
            lemma_remaining_all(order);
        }
        assert(Seq::<u32>::empty() + order == order);
    } else {
        let i = n - 1;
        lemma_reorder_prefix(page_id, order, ids, i);
        let placed = ids.take(i);
        let rest = remaining(order, placed);
        let x = ids[i];
        let cur = placed + rest;
        assert(ids.take(n) == placed.push(x));
        assert(!placed.contains(x)) by {
            if placed.contains(x) {
                let k = choose|k: int| 0 <= k < placed.len() && placed[k] == x;
                assert(ids[k] == ids[i]);
            }
        }
        assert(order.contains(x));
        lemma_remaining_contains(order, placed, x);
        lemma_remaining_distinct(order, placed);
        let q = choose|q: int| 0 <= q < rest.len() && rest[q] == x;
        lemma_remaining_push(order, placed, x, q);
        let next = rest.remove(q);
        let edits = reorder_edits(page_id, order, ids, n);
        if rest[0] == x {
            assert(q == 0);
            assert(step_edit(page_id, order, ids, i) is None);
            assert(edits == reorder_edits(page_id, order, ids, i));
            assert(placed.push(x) + next =~= cur);
        } else {
            let edit = StructuralEdit::ReorderShape {
                page_id,
                shape_id: x,
                before_shape_id: Some(rest[0]),
            };
            assert(step_edit(page_id, order, ids, i) == Some(edit));
            assert(edits == reorder_edits(page_id, order, ids, i).push(edit));
            assert(edits.drop_last() == reorder_edits(page_id, order, ids, i));
            assert(q > 0);
            assert forall|j: int| 0 <= j < i + q implies cur[j] != x by {
                if j < i {
                    assert(cur[j] == placed[j]);
                } else {
                    assert(cur[j] == rest[j - i]);
                }
            }
            lemma_position_of(cur, x, i + q);
            let without = cur.remove(i + q);
            assert(without =~= placed + next);
            lemma_remaining_contains(order, placed, rest[0]);
            assert(rest.contains(rest[0]));
            assert forall|j: int| 0 <= j < i implies without[j] != rest[0] by {
                assert(without[j] == placed[j]);
            }
            assert(without[i] == rest[0]);
            lemma_position_of(without, rest[0], i);
            assert(without.insert(i, x) =~= placed.push(x) + next);
        }
    }
}

proof fn lemma_remaining_all(order: Seq<u32>)
    ensures
        remaining(order, Seq::<u32>::empty()) == order,
    decreases order.len(),
{
    if order.len() > 0 {
        lemma_remaining_all(order.drop_last());
        assert(order.drop_last().push(order.last()) =~= order);
    }
}

/// Moving each desired shape into place turns a start order holding exactly the desired shapes
/// into the desired order.
pub proof fn lemma_reorders_reach_desired(page_id: u32, order: Seq<u32>, ids: Seq<u32>)
    requires
        order.no_duplicates(),
        ids.no_duplicates(),
        forall|k: int| 0 <= k < ids.len() ==> order.contains(#[trigger] ids[k]),
        forall|x: u32| order.contains(x) ==> ids.contains(x),
    ensures
        move_walk(page_id, order, ids, 0).1 == MoveEnd::Done,
        apply_edits(order, move_walk(page_id, order, ids, 0).0) == ids,
{
    lemma_reorder_prefix(page_id, order, ids, ids.len() as int);
    assert(ids.take(ids.len() as int) == ids);
    lemma_remaining_empty(order, ids);
    assert(ids + Seq::<u32>::empty() == ids);
    lemma_remaining_all(order);
    assert(ids.take(0) =~= Seq::<u32>::empty());
    assert(ids.take(0) + remaining(order, ids.take(0)) =~= order);
    lemma_moves_distinct(page_id, order, ids, 0);
    assert(reorder_edits(page_id, order, ids, 0) + move_walk(page_id, order, ids, 0).0
        =~= move_walk(page_id, order, ids, 0).0);
}

proof fn lemma_kept_originals_contains(originals: Seq<u32>, desired: Seq<&StructuralShapeEntry>, x: u32)
    ensures
        kept_originals(originals, desired).contains(x) <==> (originals.contains(x) && kept(desired, x)),
    decreases originals.len(),
{
    if originals.len() > 0 {
        let shorter = originals.drop_last();
        lemma_kept_originals_contains(shorter, desired, x);
        let rest = kept_originals(shorter, desired);
        assert(originals == shorter.push(originals.last()));
        if originals.contains(x) && originals.last() != x {
            let k = choose|k: int| 0 <= k < originals.len() && originals[k] == x;
            assert(shorter[k] == x);
        }
        if shorter.contains(x) {
            let k = choose|k: int| 0 <= k < shorter.len() && shorter[k] == x;
            assert(originals[k] == x);
        }
        if rest.push(originals.last()).contains(x) && x != originals.last() {
            let k = choose|k: int| 0 <= k < rest.len() + 1 && rest.push(originals.last())[k] == x;
            assert(rest[k] == x);
        }
        if rest.contains(x) {
            let k = choose|k: int| 0 <= k < rest.len() && rest[k] == x;
            assert(rest.push(originals.last())[k] == x);
        }
        assert(rest.push(originals.last())[rest.len() as int] == originals.last());
        assert(originals[originals.len() - 1] == originals.last());
    }
}

/// Deleting the shapes the session no longer keeps leaves the kept originals, in order, with
/// the originals not yet visited after them.
proof fn lemma_deletes_prefix(page_id: u32, originals: Seq<u32>, desired: Seq<&StructuralShapeEntry>, n: int)
    requires
        originals.no_duplicates(),
        0 <= n <= originals.len(),
    ensures
        apply_edits(originals, delete_edits(page_id, originals.take(n), desired)) == kept_originals(
            originals.take(n),
            desired,
        ) + originals.skip(n),
    decreases n,
{
    if n == 0 {
        assert(originals.take(0) == Seq::<u32>::empty());
        assert(originals.skip(0) == originals);
        assert(Seq::<u32>::empty() + originals == originals);
    } else {
        let i = n - 1;
        lemma_deletes_prefix(page_id, originals, desired, i);
        let x = originals[i];
        let before = kept_originals(originals.take(i), desired);
        let earlier = delete_edits(page_id, originals.take(i), desired);
        assert(originals.take(n).drop_last() == originals.take(i));
        assert(originals.take(n).last() == x);
        if kept(desired, x) {
            assert(delete_edits(page_id, originals.take(n), desired) == earlier);
            assert(kept_originals(originals.take(n), desired) == before.push(x));
            assert(before.push(x) + originals.skip(n) =~= before + originals.skip(i));
        } else {
            let edit = StructuralEdit::DeleteShape { page_id, shape_id: x };
            assert(delete_edits(page_id, originals.take(n), desired) == earlier.push(edit));
            assert(earlier.push(edit).drop_last() == earlier);
            assert(kept_originals(originals.take(n), desired) == before);
            let cur = before + originals.skip(i);
            lemma_kept_originals_contains(originals.take(i), desired, x);
            assert(!originals.take(i).contains(x)) by {
                if originals.take(i).contains(x) {
                    let k = choose|k: int| 0 <= k < i && originals.take(i)[k] == x;
                    assert(originals[k] == originals[i]);
                }
            }
            assert forall|j: int| 0 <= j < before.len() implies cur[j] != x by {
                assert(cur[j] == before[j]);
                assert(before.contains(before[j]));
            }
            assert(cur[before.len() as int] == x);
            lemma_position_of(cur, x, before.len() as int);
            assert(cur.remove(before.len() as int) =~= before + originals.skip(n));
        }
    }
}

/// The deletes take the original order to the kept originals; the moves then take the kept
/// originals, with the added shapes appended, to the desired order. This holds whenever the
/// edits are computed without error: every added shape has an allocated ID, every kept
/// original belongs to the container, and no ID is desired twice.
pub proof fn lemma_structural_edits_reach_desired(
    page_id: u32,
    originals: Seq<u32>,
    desired: Seq<&StructuralShapeEntry>,
    added: Seq<(Seq<char>, u32)>,
)
    requires
        originals.no_duplicates(),
        forall|j: int| 0 <= j < desired.len() ==> !missing_at(desired, added, j),
        desired_ids(desired, added).no_duplicates(),
        forall|j: int|
            0 <= j < desired.len() && (#[trigger] desired[j]).is_original ==> originals.contains(
                desired[j].source_id,
            ),
    ensures
        apply_edits(originals, delete_edits(page_id, originals, desired)) == kept_originals(
            originals,
            desired,
        ),
        move_walk(page_id, start_order(originals, desired, added), desired_ids(desired, added), 0).1
            == MoveEnd::Done,
        apply_edits(
            start_order(originals, desired, added),
            move_walk(page_id, start_order(originals, desired, added), desired_ids(desired, added), 0).0,
        ) == desired_ids(desired, added),
{
    lemma_deletes_prefix(page_id, originals, desired, originals.len() as int);
    assert(originals.take(originals.len() as int) == originals);
    assert(originals.skip(originals.len() as int) == Seq::<u32>::empty());
    assert(kept_originals(originals, desired) + Seq::<u32>::empty() == kept_originals(originals, desired));
    let ids = desired_ids(desired, added);
    let order = start_order(originals, desired, added);
    lemma_start_order(originals, desired, added, desired.len() as int);
    assert(desired.take(desired.len() as int) == desired);
    assert(ids.take(desired.len() as int) == ids);
    assert forall|k: int| 0 <= k < ids.len() implies order.contains(#[trigger] ids[k]) by {
        let entry = *desired[k];
        if entry.is_original {
            lemma_kept_originals_contains(originals, desired, entry.source_id);
            assert(kept(desired, entry.source_id));
            let kept_seq = kept_originals(originals, desired);
            let t = choose|t: int| 0 <= t < kept_seq.len() && kept_seq[t] == entry.source_id;
            assert(order[t] == ids[k]);
        } else {
            lemma_added_ids_position(desired, added, k);
            let adds = added_ids(desired, added);
            let kept_seq = kept_originals(originals, desired);
            let t = choose|t: int| 0 <= t < adds.len() && adds[t] == ids[k];
            assert(order[kept_seq.len() + t] == ids[k]);
        }
    }
    lemma_reorders_reach_desired(page_id, order, ids);
}

/// An added shape's allocated ID appears among the added IDs.
proof fn lemma_added_ids_position(desired: Seq<&StructuralShapeEntry>, added: Seq<(Seq<char>, u32)>, k: int)
    requires
        0 <= k < desired.len(),
        !desired[k].is_original,
    ensures
        added_ids(desired, added).contains(desired_id(*desired[k], added).unwrap()),
        start_order(Seq::empty(), desired, added).len() >= 0,
    decreases desired.len(),
{
    let rest = added_ids(desired.drop_last(), added);
    if k < desired.len() - 1 {
        lemma_added_ids_position(desired.drop_last(), added, k);
        assert(desired.drop_last()[k] == desired[k]);
        if !desired.last().is_original {
            let t = choose|t: int| 0 <= t < rest.len() && rest[t] == desired_id(*desired[k], added).unwrap();
            assert(rest.push(desired_id(*desired.last(), added).unwrap())[t] == rest[t]);
        }
    } else {
        assert(rest.push(desired_id(*desired.last(), added).unwrap())[rest.len() as int] == desired_id(
            *desired[k],
            added,
        ).unwrap());
    }
}

/// The start order has no repeats and holds only desired IDs.
proof fn lemma_start_order(
    originals: Seq<u32>,
    desired: Seq<&StructuralShapeEntry>,
    added: Seq<(Seq<char>, u32)>,
    n: int,
)
    requires
        originals.no_duplicates(),
        forall|j: int| 0 <= j < desired.len() ==> !missing_at(desired, added, j),
        desired_ids(desired, added).no_duplicates(),
        0 <= n <= desired.len(),
    ensures
        start_order(originals, desired, added).no_duplicates(),
        forall|x: u32|
            start_order(originals, desired, added).contains(x) ==> desired_ids(desired, added).contains(x),
{
    let ids = desired_ids(desired, added);
    let kept_seq = kept_originals(originals, desired);
    let adds = added_ids(desired, added);
    let order = kept_seq + adds;
    lemma_kept_distinct(originals, desired);
    lemma_added_ids_from_ids(desired, added);
    assert forall|x: u32| order.contains(x) implies ids.contains(x) by {
        let t = choose|t: int| 0 <= t < order.len() && order[t] == x;
        if t < kept_seq.len() {
            assert(kept_seq.contains(x));
            lemma_kept_originals_contains(originals, desired, x);
            let j = choose|j: int| 0 <= j < desired.len() && #[trigger] desired[j].is_original && desired[j].source_id == x;
            assert(ids[j] == x);
        } else {
            assert(adds[t - kept_seq.len()] == x);
        }
    }
    assert forall|a: int, b: int| 0 <= a < order.len() && 0 <= b < order.len() && a != b implies order[a]
        != order[b] by {
        if a < kept_seq.len() && b < kept_seq.len() {
        } else if a >= kept_seq.len() && b >= kept_seq.len() {
        } else {
            let (ka, ab) = if a < kept_seq.len() {
                (a, b - kept_seq.len())
            } else {
                (b, a - kept_seq.len())
            };
            let x = kept_seq[ka];
            if adds[ab] == x {
                assert(kept_seq.contains(x));
                lemma_kept_originals_contains(originals, desired, x);
                let j = choose|j: int| 0 <= j < desired.len() && #[trigger] desired[j].is_original && desired[j].source_id == x;
                let m = choose|m: int| 0 <= m < desired.len() && !(#[trigger] desired[m]).is_original && ids[m] == adds[ab];
                assert(ids[j] == ids[m]);
            }
        }
    }
}

proof fn lemma_kept_distinct(originals: Seq<u32>, desired: Seq<&StructuralShapeEntry>)
    requires
        originals.no_duplicates(),
    ensures
        kept_originals(originals, desired).no_duplicates(),
    decreases originals.len(),
{
    if originals.len() > 0 {
        let shorter = originals.drop_last();
        assert(shorter.no_duplicates());
        lemma_kept_distinct(shorter, desired);
        lemma_kept_originals_contains(shorter, desired, originals.last());
        if shorter.contains(originals.last()) {
            let k = choose|k: int| 0 <= k < shorter.len() && shorter[k] == originals.last();
            assert(originals[k] == originals[originals.len() - 1]);
        }
    }
}

/// The added IDs are the desired IDs of the added shapes, in order, without repeats.
proof fn lemma_added_ids_from_ids(desired: Seq<&StructuralShapeEntry>, added: Seq<(Seq<char>, u32)>)
    requires
        desired_ids(desired, added).no_duplicates(),
    ensures
        added_ids(desired, added).no_duplicates(),
        forall|t: int| 0 <= t < added_ids(desired, added).len() ==> exists|m: int|
            0 <= m < desired.len() && !(#[trigger] desired[m]).is_original && desired_ids(desired, added)[m]
                == #[trigger] added_ids(desired, added)[t],
    decreases desired.len(),
{
    if desired.len() > 0 {
        let shorter = desired.drop_last();
        let ids = desired_ids(desired, added);
        let short_ids = desired_ids(shorter, added);
        assert forall|a: int, b: int| 0 <= a < short_ids.len() && 0 <= b < short_ids.len() && a != b implies short_ids[a] != short_ids[b] by {
            assert(short_ids[a] == ids[a]);
            assert(short_ids[b] == ids[b]);
        }
        lemma_added_ids_from_ids(shorter, added);
        let rest = added_ids(shorter, added);
        let adds = added_ids(desired, added);
        let last = desired.len() - 1;
        assert forall|t: int| 0 <= t < rest.len() implies exists|m: int|
            0 <= m < desired.len() && !(#[trigger] desired[m]).is_original && ids[m] == #[trigger] rest[t] by {
            let m = choose|m: int| 0 <= m < shorter.len() && !(#[trigger] shorter[m]).is_original && short_ids[m] == rest[t];
            assert(desired[m] == shorter[m]);
            assert(ids[m] == short_ids[m]);
        }
        if !desired.last().is_original {
            assert(adds == rest.push(ids[last]));
            assert forall|a: int, b: int| 0 <= a < adds.len() && 0 <= b < adds.len() && a != b implies adds[a] != adds[b] by {
                if a < rest.len() && b < rest.len() {
                } else if a < rest.len() {
                    let m = choose|m: int| 0 <= m < desired.len() && !(#[trigger] desired[m]).is_original && ids[m] == rest[a];
                    assert(m != last) by {
                        if m == last {
                            assert(shorter.len() == last);
                            let m2 = choose|m2: int| 0 <= m2 < shorter.len() && !(#[trigger] shorter[m2]).is_original && short_ids[m2] == rest[a];
                            assert(ids[m2] == short_ids[m2]);
                        }
                    }
                } else if b < rest.len() {
                    let m = choose|m: int| 0 <= m < desired.len() && !(#[trigger] desired[m]).is_original && ids[m] == rest[b];
                    assert(m != last) by {
                        if m == last {
                            let m2 = choose|m2: int| 0 <= m2 < shorter.len() && !(#[trigger] shorter[m2]).is_original && short_ids[m2] == rest[b];
                            assert(ids[m2] == short_ids[m2]);
                        }
                    }
                }
            }
            assert forall|t: int| 0 <= t < adds.len() implies exists|m: int|
                0 <= m < desired.len() && !(#[trigger] desired[m]).is_original && ids[m] == #[trigger] adds[t] by {
                if t == rest.len() {
                    assert(!desired[last].is_original && ids[last] == adds[t]);
                } else {
                    assert(adds[t] == rest[t]);
                }
            }
        }
    }
}

/// What `{:?}` writes for a string: the string in double quotes, escaped.
pub uninterp spec fn debug_quoted(s: Seq<char>) -> Seq<char>;

/// The Debug form of a string, as `format!("{:?}", s)` writes it.
#[verifier::external_body]
fn debug_string(s: &str) -> (result: String)
    ensures
        result@ == debug_quoted(s@),
{
    format!("{s:?}")
}

/// The refusal of an added shape without an allocated source ID.
pub open spec fn missing_message(id: Seq<char>) -> Seq<char> {
    "added shape "@ + debug_quoted(id) + " is missing its allocated source ID"@
}

/// The refusal of a desired shape that is not in the container.
pub open spec fn absent_message(id: u32) -> Seq<char> {
    "shape "@ + decimal(id as nat) + " is requested in order but is absent from its container"@
}

/// The first added shape without an allocated source ID is at `j`.
pub open spec fn first_missing_is(desired: Seq<&StructuralShapeEntry>, added: Seq<(Seq<char>, u32)>, j: int) -> bool {
    &&& 0 <= j < desired.len()
    &&& missing_at(desired, added, j)
    &&& forall|k: int| 0 <= k < j ==> !missing_at(desired, added, k)
}

/// Every added shape has an allocated source ID.
pub open spec fn all_allocated(desired: Seq<&StructuralShapeEntry>, added: Seq<(Seq<char>, u32)>) -> bool {
    forall|j: int| 0 <= j < desired.len() ==> !missing_at(desired, added, j)
}

/// The first desired ID missing from the start order is at `a`.
pub open spec fn first_absent_is(order: Seq<u32>, ids: Seq<u32>, a: int) -> bool {
    &&& 0 <= a < ids.len()
    &&& !order.contains(ids[a])
    &&& forall|k: int| 0 <= k < a ==> order.contains(#[trigger] ids[k])
}

/// How the reorder pass ends: having placed every desired shape, at the first desired shape
/// absent from the container, or with a move past the end of the order (where the shapes
/// repeat so that the order runs short).
pub enum MoveEnd {
    Done,
    Absent(nat),
    Overflow,
}

/// The reorder pass from position `i` of `order`: where `ids[i]` is not already in place, a
/// move of it before the shape at `i` (or to the end), taking it out of the order and putting
/// it back at `i`; the moves made and how the pass ends.
pub open spec fn move_walk(page_id: u32, order: Seq<u32>, ids: Seq<u32>, i: int) -> (
    Seq<StructuralEdit>,
    MoveEnd,
)
    decreases ids.len() - i,
{
    if i < 0 || i >= ids.len() {
        (Seq::empty(), MoveEnd::Done)
    } else if i < order.len() && order[i] == ids[i] {
        move_walk(page_id, order, ids, i + 1)
    } else {
        let edit = StructuralEdit::ReorderShape {
            page_id,
            shape_id: ids[i],
            before_shape_id: if i < order.len() {
                Some(order[i])
            } else {
                None
            },
        };
        let from = position_of(order, ids[i]);
        if from >= order.len() {
            (seq![edit], MoveEnd::Absent(i as nat))
        } else if i > order.len() - 1 {
            (seq![edit], MoveEnd::Overflow)
        } else {
            let rest = move_walk(page_id, order.remove(from).insert(i, ids[i]), ids, i + 1);
            (seq![edit] + rest.0, rest.1)
        }
    }
}

proof fn lemma_position_bounds(s: Seq<u32>, x: u32)
    ensures
        0 <= position_of(s, x) <= s.len(),
        position_of(s, x) < s.len() ==> s[position_of(s, x)] == x && forall|j: int|
            0 <= j < position_of(s, x) ==> s[j] != x,
        position_of(s, x) == s.len() ==> !s.contains(x),
    decreases s.len(),
{
    if s.len() > 0 && s[0] != x {
        lemma_position_bounds(s.drop_first(), x);
        let p = position_of(s.drop_first(), x);
        assert forall|j: int| 0 <= j < position_of(s, x) implies s[j] != x by {
            if j > 0 {
                assert(s[j] == s.drop_first()[j - 1]);
            }
        }
        if p == s.drop_first().len() {
            assert(!s.contains(x)) by {
                if s.contains(x) {
                    let k = choose|k: int| 0 <= k < s.len() && s[k] == x;
                    assert(s.drop_first()[k - 1] == x);
                }
            }
        }
    }
}

proof fn lemma_move_walk_absent(page_id: u32, order: Seq<u32>, ids: Seq<u32>, i: int)
    ensures
        move_walk(page_id, order, ids, i).1 matches MoveEnd::Absent(a) ==> 0 <= i <= a < ids.len(),
    decreases ids.len() - i,
{
    if 0 <= i < ids.len() {
        if i < order.len() && order[i] == ids[i] {
            lemma_move_walk_absent(page_id, order, ids, i + 1);
        } else {
            let from = position_of(order, ids[i]);
            if from < order.len() && i <= order.len() - 1 {
                lemma_move_walk_absent(page_id, order.remove(from).insert(i, ids[i]), ids, i + 1);
            }
        }
    }
}

/// On distinct inputs the reorder pass makes exactly the moves of [`reorder_edits`].
proof fn lemma_moves_distinct(page_id: u32, order0: Seq<u32>, ids: Seq<u32>, i: int)
    requires
        order0.no_duplicates(),
        ids.no_duplicates(),
        0 <= i <= ids.len(),
        forall|k: int| 0 <= k < i ==> order0.contains(#[trigger] ids[k]),
    ensures
        ({
            let w = move_walk(page_id, ids.take(i) + remaining(order0, ids.take(i)), ids, i);
            &&& (forall|k: int| i <= k < ids.len() ==> order0.contains(#[trigger] ids[k])) ==> {
                &&& w.1 == MoveEnd::Done
                &&& reorder_edits(page_id, order0, ids, i) + w.0 == reorder_edits(
                    page_id,
                    order0,
                    ids,
                    ids.len() as int,
                )
            }
            &&& forall|a: int| #[trigger] first_absent_is(order0, ids, a) ==> {
                &&& w.1 == MoveEnd::Absent(a as nat)
                &&& reorder_edits(page_id, order0, ids, i) + w.0 == reorder_edits(
                    page_id,
                    order0,
                    ids,
                    a + 1,
                )
            }
        }),
    decreases ids.len() - i,
{
    let placed = ids.take(i);
    let rest = remaining(order0, placed);
    let order = placed + rest;
    let w = move_walk(page_id, order, ids, i);
    if i == ids.len() {
        assert(reorder_edits(page_id, order0, ids, i) + w.0 =~= reorder_edits(page_id, order0, ids, i));
        assert forall|a: int| #[trigger] first_absent_is(order0, ids, a) implies false by {}
        return;
    }
    let x = ids[i];
    assert(ids.take(i + 1) == placed.push(x));
    assert(!placed.contains(x)) by {
        if placed.contains(x) {
            let k = choose|k: int| 0 <= k < placed.len() && placed[k] == x;
            assert(ids[k] == ids[i]);
        }
    }
    lemma_remaining_contains(order0, placed, x);
    lemma_remaining_distinct(order0, placed);
    lemma_position_bounds(order, x);
    let done = reorder_edits(page_id, order0, ids, i);
    if rest.len() > 0 && rest[0] == x {
        assert(order[i] == x);
        assert(step_edit(page_id, order0, ids, i) is None);
        assert(reorder_edits(page_id, order0, ids, i + 1) == done);
        lemma_remaining_push(order0, placed, x, 0);
        assert(order =~= placed.push(x) + rest.remove(0));
        assert(order0.contains(x));
        lemma_moves_distinct(page_id, order0, ids, i + 1);
        assert forall|a: int| #[trigger] first_absent_is(order0, ids, a) implies a >= i + 1 by {
            if a == i {
            }
        }
    } else {
        let edit = StructuralEdit::ReorderShape {
            page_id,
            shape_id: x,
            before_shape_id: if rest.len() > 0 {
                Some(rest[0])
            } else {
                None
            },
        };
        if i < order.len() {
            assert(order[i] == rest[0]);
        }
        assert(step_edit(page_id, order0, ids, i) == Some(edit));
        assert(reorder_edits(page_id, order0, ids, i + 1) == done.push(edit));
        if rest.contains(x) {
            let q = choose|q: int| 0 <= q < rest.len() && rest[q] == x;
            assert forall|j: int| 0 <= j < i + q implies order[j] != x by {
                if j < i {
                    assert(order[j] == placed[j]);
                } else {
                    assert(order[j] == rest[j - i]);
                    if rest[j - i] == x {
                        assert(rest[j - i] == rest[q]);
                    }
                }
            }
            assert(order[i + q] == x);
            lemma_position_of(order, x, i + q);
            assert(order.remove(i + q) =~= placed + rest.remove(q));
            lemma_remaining_push(order0, placed, x, q);
            assert((placed + rest.remove(q)).insert(i, x) =~= placed.push(x) + rest.remove(q));
            assert(order0.contains(x));
            lemma_moves_distinct(page_id, order0, ids, i + 1);
            let w2 = move_walk(page_id, placed.push(x) + rest.remove(q), ids, i + 1);
            assert(w == (seq![edit] + w2.0, w2.1));
            assert(done + (seq![edit] + w2.0) =~= done.push(edit) + w2.0);
            assert forall|a: int| #[trigger] first_absent_is(order0, ids, a) implies a >= i + 1 by {
                if a == i {
                }
            }
        } else {
            assert(!order.contains(x)) by {
                if order.contains(x) {
                    let k = choose|k: int| 0 <= k < order.len() && order[k] == x;
                    if k < i {
                        assert(placed[k] == x);
                    } else {
                        assert(rest[k - i] == x);
                    }
                }
            }
            assert(w == (seq![edit], MoveEnd::Absent(i as nat)));
            assert(first_absent_is(order0, ids, i));
            assert(done + seq![edit] =~= done.push(edit));
            assert forall|a: int| #[trigger] first_absent_is(order0, ids, a) implies a == i by {
                if a < i {
                } else if a > i {
                }
            }
        }
    }
}

/// Whether the session keeps original shape `x`.
fn is_kept(desired: &[&StructuralShapeEntry], x: u32) -> (result: bool)
    ensures
        result == kept(desired@, x),
{
    let mut j: usize = 0;
    while j < desired.len()
        invariant
            j <= desired@.len(),
            forall|k: int| 0 <= k < j ==> !(#[trigger] desired@[k].is_original && desired@[k].source_id == x),
        decreases desired.len() - j,
    {
        if desired[j].is_original && desired[j].source_id == x {
            return true;
        }
        j = j + 1;
    }
    false
}

/// Appends a delete for each original the session no longer keeps; returns the kept ones.
fn push_deletes(
    page_id: u32,
    originals: &[u32],
    desired: &[&StructuralShapeEntry],
    edits: &mut Vec<StructuralEdit>,
) -> (kept_ids: Vec<u32>)
    ensures
        final(edits)@ == old(edits)@ + delete_edits(page_id, originals@, desired@),
        kept_ids@ == kept_originals(originals@, desired@),
{
    let mut kept_ids: Vec<u32> = Vec::new();
    let mut i: usize = 0;
    while i < originals.len()
        invariant
            i <= originals@.len(),
            edits@ == old(edits)@ + delete_edits(page_id, originals@.take(i as int), desired@),
            kept_ids@ == kept_originals(originals@.take(i as int), desired@),
        decreases originals.len() - i,
    {
        assert(originals@.take(i + 1).drop_last() == originals@.take(i as int));
        assert(originals@.take(i + 1).last() == originals@[i as int]);
        let x = originals[i];
        if is_kept(desired, x) {
            kept_ids.push(x);
        } else {
            edits.push(StructuralEdit::DeleteShape { page_id, shape_id: x });
        }
        i = i + 1;
    }
    assert(originals@.take(originals@.len() as int) == originals@);
    kept_ids
}

/// The desired IDs, or the first added shape without an allocated ID.
fn collect_ids(desired: &[&StructuralShapeEntry], added: &[(String, u32)]) -> (result: Result<
    (Vec<u32>, Vec<u32>),
    usize,
>)
    ensures
        match result {
            Ok((adds, ids)) => all_allocated(desired@, sources_view(added@)) && adds@ == added_ids(
                desired@,
                sources_view(added@),
            ) && ids@ == desired_ids(desired@, sources_view(added@)),
            Err(j) => first_missing_is(desired@, sources_view(added@), j as int),
        },
{
    let ghost av = sources_view(added@);
    let mut adds: Vec<u32> = Vec::new();
    let mut ids: Vec<u32> = Vec::new();
    let mut j: usize = 0;
    while j < desired.len()
        invariant
            j <= desired@.len(),
            av == sources_view(added@),
            forall|k: int| 0 <= k < j ==> !missing_at(desired@, av, k),
            adds@ == added_ids(desired@.take(j as int), av),
            ids@ == desired_ids(desired@, av).take(j as int),
        decreases desired.len() - j,
    {
        assert(desired@.take(j + 1).drop_last() == desired@.take(j as int));
        assert(desired@.take(j + 1).last() == desired@[j as int]);
        let entry = desired[j];
        if entry.is_original {
            ids.push(entry.source_id);
        } else {
            match find_source(added, entry.id.as_str()) {
                Some(id) => {
                    adds.push(id);
                    ids.push(id);
                },
                None => {
                    return Err(j);
                },
            }
        }
        assert(ids@ =~= desired_ids(desired@, av).take(j + 1));
        j = j + 1;
    }
    assert(desired@.take(desired@.len() as int) == desired@);
    assert(ids@ =~= desired_ids(desired@, av));
    Ok((adds, ids))
}

/// Position of the first `x` in `order`, if any.
fn find_position(order: &Vec<u32>, x: u32) -> (result: Option<usize>)
    ensures
        match result {
            Some(j) => j < order@.len() && order@[j as int] == x && forall|k: int| 0 <= k < j ==> order@[k] != x,
            None => !order@.contains(x),
        },
{
    let mut j: usize = 0;
    while j < order.len()
        invariant
            j <= order@.len(),
            forall|k: int| 0 <= k < j ==> order@[k] != x,
        decreases order.len() - j,
    {
        if order[j] == x {
            return Some(j);
        }
        j = j + 1;
    }
    None
}

/// Appends the moves of the reorder pass over `start`; fails at the first desired ID the
/// order lacks.
fn push_reorders(
    page_id: u32,
    start: &Vec<u32>,
    ids: &Vec<u32>,
    edits: &mut Vec<StructuralEdit>,
) -> (result: Result<(), usize>)
    requires
        !(move_walk(page_id, start@, ids@, 0).1 is Overflow),
    ensures
        final(edits)@ == old(edits)@ + move_walk(page_id, start@, ids@, 0).0,
        match move_walk(page_id, start@, ids@, 0).1 {
            MoveEnd::Done => result is Ok,
            MoveEnd::Absent(a) => result matches Err(i) && i as nat == a,
            MoveEnd::Overflow => true,
        },
        result matches Err(a) ==> a < ids@.len(),
{
    let ghost whole = move_walk(page_id, start@, ids@, 0);
    let mut order = start.clone();
    assert(order@ == start@);
    let ghost mut done: Seq<StructuralEdit> = Seq::empty();
    assert(whole == (done + whole.0, whole.1));
    let mut index: usize = 0;
    while index < ids.len()
        invariant
            index <= ids@.len(),
            whole == move_walk(page_id, start@, ids@, 0),
            !(whole.1 is Overflow),
            edits@ == old(edits)@ + done,
            whole == (done + move_walk(page_id, order@, ids@, index as int).0, move_walk(
                page_id,
                order@,
                ids@,
                index as int,
            ).1),
        decreases ids.len() - index,
    {
        let x = ids[index];
        let ghost w = move_walk(page_id, order@, ids@, index as int);
        let before: Option<u32> = if index < order.len() {
            Some(order[index])
        } else {
            None
        };
        if before == Some(x) {
            assert(w == move_walk(page_id, order@, ids@, index + 1));
        } else {
            let edit = StructuralEdit::ReorderShape { page_id, shape_id: x, before_shape_id: before };
            edits.push(edit);
            proof {
                lemma_position_bounds(order@, x);
            }
            match find_position(&order, x) {
                Some(from) => {
                    proof {
                        lemma_position_of(order@, x, from as int);
                    }
                    let ghost inserted = order@.remove(from as int).insert(index as int, x);
                    let ghost w2 = move_walk(page_id, inserted, ids@, index + 1);
                    assert(index <= order@.len() - 1) by {
                        if index > order@.len() - 1 {
                            assert(w == (seq![edit], MoveEnd::Overflow));
                        }
                    }
                    assert(w == (seq![edit] + w2.0, w2.1));
                    order.remove(from);
                    order.insert(index, x);
                    assert(order@ == inserted);
                    proof {
                        assert(done + (seq![edit] + w2.0) =~= done.push(edit) + w2.0);
                        done = done.push(edit);
                    }
                },
                None => {
                    assert(w == (seq![edit], MoveEnd::Absent(index as nat)));
                    assert(edits@ =~= old(edits)@ + (done + seq![edit]));
                    return Err(index);
                },
            }
        }
        index = index + 1;
    }
    assert(move_walk(page_id, order@, ids@, index as int) == (
        Seq::<StructuralEdit>::empty(),
        MoveEnd::Done,
    ));
    assert(done + Seq::<StructuralEdit>::empty() =~= done);
    Ok(())
}

/// The edits that turn one container's original children into the session's order: a delete
/// for each original the session no longer keeps, then the moves that place each desired shape,
/// the kept originals first and the added shapes appended after them. Fails on an added shape
/// without an allocated source ID, and on a desired shape the container does not hold; the
/// edits appended before the failure stay.
#[verifier::spinoff_prover]
pub fn structural_container_edits(
    page_id: u32,
    originals: &[u32],
    desired: &[&StructuralShapeEntry],
    added: &[(String, u32)],
    edits: &mut Vec<StructuralEdit>,
) -> (result: EditResult<()>)
    requires
        all_allocated(desired@, sources_view(added@)) ==> !(move_walk(
            page_id,
            start_order(originals@, desired@, sources_view(added@)),
            desired_ids(desired@, sources_view(added@)),
            0,
        ).1 is Overflow),
    ensures
        ({
            let av = sources_view(added@);
            let deletes = delete_edits(page_id, originals@, desired@);
            let ids = desired_ids(desired@, av);
            let moves = move_walk(page_id, start_order(originals@, desired@, av), ids, 0);
            &&& forall|j: int| #[trigger] first_missing_is(desired@, av, j) ==> {
                &&& result matches Err(EditError::InvalidState(message)) && message@ == missing_message(
                    desired@[j].id@,
                )
                &&& final(edits)@ == old(edits)@ + deletes
            }
            &&& all_allocated(desired@, av) ==> {
                &&& final(edits)@ == old(edits)@ + deletes + moves.0
                &&& match moves.1 {
                    MoveEnd::Done => result is Ok,
                    MoveEnd::Absent(a) => result matches Err(EditError::InvalidState(message))
                        && message@ == absent_message(ids[a as int]),
                    MoveEnd::Overflow => true,
                }
            }
        }),
{
    let ghost av = sources_view(added@);
    let kept_ids = push_deletes(page_id, originals, desired, edits);
    match collect_ids(desired, added) {
        Err(j) => {
            let mut message = owned("added shape ");
            let quoted = debug_string(desired[j].id.as_str());
            push_str(&mut message, quoted.as_str());
            push_str(&mut message, " is missing its allocated source ID");
            proof {
                assert forall|k: int| #[trigger] first_missing_is(desired@, av, k) implies k == j by {
                    if k < j {
                    } else if k > j {
                    }
                }
            }
            Err(EditError::InvalidState(message))
        },
        Ok((adds, ids)) => {
            let mut start = kept_ids;
            let mut t: usize = 0;
            let ghost kept_seq = start@;
            while t < adds.len()
                invariant
                    t <= adds@.len(),
                    start@ == kept_seq + adds@.take(t as int),
                decreases adds.len() - t,
            {
                start.push(adds[t]);
                assert(adds@.take(t + 1) == adds@.take(t as int).push(adds@[t as int]));
                assert(start@ =~= kept_seq + adds@.take(t + 1));
                t = t + 1;
            }
            assert(adds@.take(adds@.len() as int) == adds@);
            assert(start@ == start_order(originals@, desired@, av));
            assert(ids@ == desired_ids(desired@, av));
            match push_reorders(page_id, &start, &ids, edits) {
                Ok(()) => {
                    assert(move_walk(page_id, start@, ids@, 0).1 is Done);
                    assert(edits@ =~= old(edits)@ + delete_edits(page_id, originals@, desired@)
                        + move_walk(page_id, start@, ids@, 0).0);
                    Ok(())
                },
                Err(a) => {
                    proof {
                        lemma_move_walk_absent(page_id, start@, ids@, 0);
                        let w = move_walk(page_id, start@, ids@, 0);
                        assert(!(w.1 is Done));
                        assert(!(w.1 is Overflow));
                        let b = w.1->Absent_0;
                        assert(b < ids@.len());
                        assert(a as nat == b);
                    }
                    let mut message = owned("shape ");
                    push_decimal(&mut message, ids[a] as u64);
                    push_str(&mut message, " is requested in order but is absent from its container");
                    assert(move_walk(page_id, start@, ids@, 0).1 == MoveEnd::Absent(a as nat));
                    assert(message@ == absent_message(ids@[a as int]));
                    assert(edits@ =~= old(edits)@ + delete_edits(page_id, originals@, desired@)
                        + move_walk(page_id, start@, ids@, 0).0);
                    Err(EditError::InvalidState(message))
                },
            }
        },
    }
}

/// Strings as plain character sequences.
pub open spec fn strings_view(s: Seq<String>) -> Seq<Seq<char>> {
    s.map_values(|p: String| p@)
}

/// The source part path of each snapshot page, in page order.
pub open spec fn snapshot_paths(pages: Seq<PageSnapshot>) -> Seq<Seq<char>> {
    pages.map_values(|page: PageSnapshot| page.source_part_path@)
}

/// The snapshot's pages are the package's pages: as many as its distinct page parts, none
/// twice, each one of them.
pub open spec fn page_order_ok(paths: Seq<Seq<char>>, expected: Seq<Seq<char>>) -> bool {
    &&& paths.len() == expected.to_set().len()
    &&& paths.no_duplicates()
    &&& forall|k: int| 0 <= k < paths.len() ==> expected.contains(#[trigger] paths[k])
}

/// Whether a list of strings holds `s`.
fn strings_contain(list: &Vec<String>, s: &str) -> (result: bool)
    ensures
        result == strings_view(list@).contains(s@),
{
    let ghost view = strings_view(list@);
    let mut i: usize = 0;
    while i < list.len()
        invariant
            i <= list@.len(),
            view == strings_view(list@),
            forall|k: int| 0 <= k < i ==> view[k] != s@,
        decreases list.len() - i,
    {
        if str_eq(list[i].as_str(), s) {
            assert(view[i as int] == s@);
            return true;
        }
        i = i + 1;
    }
    false
}

/// The number of distinct strings in `list`.
fn distinct_count(list: &[String]) -> (result: usize)
    ensures
        result == strings_view(list@).to_set().len(),
{
    let ghost view = strings_view(list@);
    let mut seen: Vec<String> = Vec::new();
    let mut i: usize = 0;
    while i < list.len()
        invariant
            i <= list@.len(),
            view == strings_view(list@),
            strings_view(seen@).no_duplicates(),
            strings_view(seen@).to_set() == view.take(i as int).to_set(),
            seen@.len() <= i,
        decreases list.len() - i,
    {
        let ghost before = strings_view(seen@);
        assert(view.take(i + 1) == view.take(i as int).push(view[i as int]));
        if !strings_contain(&seen, list[i].as_str()) {
            seen.push(list[i].clone());
            assert(strings_view(seen@) == before.push(view[i as int]));
        } else {
            assert(strings_view(seen@) == before);
        }
        assert(strings_view(seen@).to_set() =~= view.take(i + 1).to_set()) by {
            assert forall|x: Seq<char>| strings_view(seen@).to_set().contains(x) <==> view.take(i + 1).to_set().contains(x) by {
                let now = strings_view(seen@);
                let target = view.take(i + 1);
                let prev = view.take(i as int);
                if now.contains(x) {
                    let k = choose|k: int| 0 <= k < now.len() && now[k] == x;
                    if k < before.len() {
                        assert(before.contains(x));
                        assert(before.to_set().contains(x));
                        assert(prev.to_set().contains(x));
                        let t = choose|t: int| 0 <= t < prev.len() && prev[t] == x;
                        assert(target[t] == x);
                    } else {
                        assert(target[i as int] == x);
                    }
                }
                if target.contains(x) {
                    let t = choose|t: int| 0 <= t < target.len() && target[t] == x;
                    if t < i {
                        assert(prev[t] == x);
                        assert(prev.to_set().contains(x));
                        assert(before.to_set().contains(x));
                        let k = choose|k: int| 0 <= k < before.len() && before[k] == x;
                        assert(now[k] == x);
                    } else if now != before {
                        assert(now[before.len() as int] == x);
                    } else {
                        assert(before.contains(view[i as int]));
                    }
                }
            }
        }
        i = i + 1;
    }
    assert(view.take(list@.len() as int) == view);
    proof {
        strings_view(seen@).unique_seq_to_set();
    }
    seen.len()
}

/// The snapshot's page part paths in page order, when they are exactly the package's pages;
/// `expected` lists the package's page parts.
pub fn page_part_paths_for_snapshot(expected: &[String], snapshot: &DiagramSnapshot) -> (result: EditResult<Vec<String>>)
    ensures
        page_order_ok(snapshot_paths(snapshot.pages@), strings_view(expected@)) ==> (result matches Ok(
            paths,
        ) && strings_view(paths@) == snapshot_paths(snapshot.pages@)),
        !page_order_ok(snapshot_paths(snapshot.pages@), strings_view(expected@)) ==> (result matches Err(
            EditError::InvalidState(message),
        ) && message@ == "page order does not match the original package"@),
{
    let ghost pv = snapshot_paths(snapshot.pages@);
    let ghost ev = strings_view(expected@);
    let mut paths: Vec<String> = Vec::new();
    let mut i: usize = 0;
    while i < snapshot.pages.len()
        invariant
            i <= snapshot.pages@.len(),
            pv == snapshot_paths(snapshot.pages@),
            strings_view(paths@) == pv.take(i as int),
        decreases snapshot.pages.len() - i,
    {
        let ghost before = paths@;
        assert(strings_view(before).len() == before.len());
        assert(before.len() == i);
        let path = snapshot.pages[i].source_part_path.clone();
        assert(path@ == snapshot.pages@[i as int].source_part_path@);
        paths.push(path);
        assert(paths@[i as int]@ == pv[i as int]);
        assert(strings_view(paths@) =~= pv.take(i + 1));
        i = i + 1;
    }
    assert(pv.take(pv.len() as int) == pv);
    let expected_count = distinct_count(expected);
    if paths.len() != expected_count {
        return Err(invalid_state("page order does not match the original package"));
    }
    let mut k: usize = 0;
    while k < paths.len()
        invariant
            k <= paths@.len(),
            pv == snapshot_paths(snapshot.pages@),
            strings_view(paths@) == pv,
            ev == strings_view(expected@),
            forall|a: int, b: int| 0 <= a < k && 0 <= b < pv.len() && a != b ==> pv[a] != pv[b],
            forall|t: int| 0 <= t < k ==> ev.contains(#[trigger] pv[t]),
        decreases paths.len() - k,
    {
        let mut j: usize = 0;
        while j < paths.len()
            invariant
                j <= paths@.len(),
                k < paths@.len(),
                pv == snapshot_paths(snapshot.pages@),
                strings_view(paths@) == pv,
                forall|b: int| 0 <= b < j && b != k ==> pv[k as int] != pv[b],
            decreases paths.len() - j,
        {
            assert(pv[j as int] == paths@[j as int]@);
            assert(pv[k as int] == paths@[k as int]@);
            if j != k && str_eq(paths[j].as_str(), paths[k].as_str()) {
                assert(pv[j as int] == pv[k as int]);
                assert(!pv.no_duplicates());
                return Err(invalid_state("page order does not match the original package"));
            }
            j = j + 1;
        }
        let found = {
            let mut e: usize = 0;
            let mut hit = false;
            while e < expected.len()
                invariant
                    e <= expected@.len(),
                    k < paths@.len(),
                    strings_view(paths@) == pv,
                    ev == strings_view(expected@),
                    hit == exists|t: int| 0 <= t < e && ev[t] == pv[k as int],
                decreases expected.len() - e,
            {
                assert(ev[e as int] == expected@[e as int]@);
                assert(pv[k as int] == paths@[k as int]@);
                if str_eq(expected[e].as_str(), paths[k].as_str()) {
                    hit = true;
                }
                e = e + 1;
            }
            hit
        };
        if !found {
            assert(!ev.contains(pv[k as int]));
            return Err(invalid_state("page order does not match the original package"));
        }
        k = k + 1;
    }
    Ok(paths)
}

/// When the snapshot's page order is accepted, its pages are exactly the package's pages,
/// each once.
pub proof fn lemma_page_order_is_a_permutation(paths: Seq<Seq<char>>, expected: Seq<Seq<char>>)
    requires
        page_order_ok(paths, expected),
    ensures
        paths.to_set() == expected.to_set(),
        paths.no_duplicates(),
{
    broadcast use vstd::seq_lib::seq_to_set_is_finite;

    paths.unique_seq_to_set();
    assert(paths.to_set().subset_of(expected.to_set())) by {
        assert forall|p: Seq<char>| paths.to_set().contains(p) implies expected.to_set().contains(p) by {
            let k = choose|k: int| 0 <= k < paths.len() && paths[k] == p;
            assert(expected.contains(paths[k]));
        }
    }
    vstd::set_lib::lemma_subset_equality(paths.to_set(), expected.to_set());
}

/// A shape of the source package as far as its container order goes: its ID and its own shapes.
#[derive(Debug)]
pub struct SourceShape {
    pub id: u32,
    pub shapes: Vec<SourceShape>,
}

/// The IDs of the shapes, in order.
pub open spec fn shape_ids(shapes: Seq<SourceShape>) -> Seq<u32> {
    shapes.map_values(|shape: SourceShape| shape.id)
}

/// Each shape's own container entries, in document order: the shape with the IDs of its own
/// shapes, then the entries of those shapes.
pub open spec fn nested_containers(shapes: Seq<SourceShape>) -> Seq<(Option<u32>, Seq<u32>)>
    decreases shapes,
{
    if shapes.len() == 0 {
        Seq::empty()
    } else {
        let shape = shapes[0];
        seq![(Some(shape.id), shape_ids(shape.shapes@))] + nested_containers(shape.shapes@)
            + nested_containers(shapes.drop_first())
    }
}

/// The container entries of a page: the page itself with its top-level shapes first, then
/// every shape in document order. A lookup takes the last entry for a container.
pub open spec fn page_containers(roots: Seq<SourceShape>) -> Seq<(Option<u32>, Seq<u32>)> {
    seq![(None::<u32>, shape_ids(roots))] + nested_containers(roots)
}

/// The IDs of the shapes, in order.
fn ids_of(shapes: &Vec<SourceShape>) -> (result: Vec<u32>)
    ensures
        result@ == shape_ids(shapes@),
{
    let mut ids: Vec<u32> = Vec::new();
    let mut i: usize = 0;
    while i < shapes.len()
        invariant
            i <= shapes@.len(),
            ids@ == shape_ids(shapes@).take(i as int),
        decreases shapes.len() - i,
    {
        ids.push(shapes[i].id);
        assert(ids@ =~= shape_ids(shapes@).take(i + 1));
        i = i + 1;
    }
    assert(shape_ids(shapes@).take(shapes@.len() as int) == shape_ids(shapes@));
    ids
}

/// Container entries as plain values.
pub open spec fn containers_view(entries: Seq<(Option<u32>, Vec<u32>)>) -> Seq<(Option<u32>, Seq<u32>)> {
    entries.map_values(|entry: (Option<u32>, Vec<u32>)| (entry.0, entry.1@))
}

/// Appends the container entries of `shapes`, in document order.
fn push_nested(out: &mut Vec<(Option<u32>, Vec<u32>)>, shapes: &Vec<SourceShape>)
    ensures
        containers_view(final(out)@) == containers_view(old(out)@) + nested_containers(shapes@),
    decreases shapes@,
{
    let mut i: usize = 0;
    assert(shapes@.skip(0) == shapes@);
    while i < shapes.len()
        invariant
            i <= shapes@.len(),
            containers_view(out@) + nested_containers(shapes@.skip(i as int)) == containers_view(
                old(out)@,
            ) + nested_containers(shapes@),
        decreases shapes.len() - i,
    {
        let shape = &shapes[i];
        let ghost before = containers_view(out@);
        let ghost rest = shapes@.skip(i as int);
        assert(rest[0] == *shape);
        assert(rest.drop_first() == shapes@.skip(i + 1));
        let ids = ids_of(&shape.shapes);
        out.push((Some(shape.id), ids));
        assert(containers_view(out@) == before.push((Some(shape.id), shape_ids(shape.shapes@))));
        push_nested(out, &shape.shapes);
        assert(containers_view(out@) + nested_containers(shapes@.skip(i + 1)) =~= before + nested_containers(rest));
        i = i + 1;
    }
    assert(shapes@.skip(shapes@.len() as int) == Seq::<SourceShape>::empty());
    assert(containers_view(out@) + Seq::<(Option<u32>, Seq<u32>)>::empty() == containers_view(out@));
}

/// For the page and every shape of the source package, the IDs of its own shapes in order:
/// the page first, then each shape in document order.
pub fn original_shape_containers(roots: &Vec<SourceShape>) -> (result: Vec<(Option<u32>, Vec<u32>)>)
    ensures
        containers_view(result@) == page_containers(roots@),
{
    let mut out: Vec<(Option<u32>, Vec<u32>)> = Vec::new();
    out.push((None, ids_of(roots)));
    push_nested(&mut out, roots);
    out
}

} // verus!
