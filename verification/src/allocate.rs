//! Source IDs for the shapes a save writes: originals keep theirs, added shapes keep the ID
//! they were stored with while it is free, and the rest get fresh IDs above every ID in use.
use vstd::prelude::*;
use vstd::relations::{sorted_by, total_ordering};

use crate::model::{invalid_state, EditError, EditResult};
use crate::connect::sources_view;
use crate::text::{chars_eq, chars_of};

verus! {

/// `a` sorts no later than `b`: by code point, a prefix first.
pub open spec fn chars_le(a: Seq<char>, b: Seq<char>) -> bool
    decreases a.len(),
{
    if a.len() == 0 {
        true
    } else if b.len() == 0 {
        false
    } else if a[0] != b[0] {
        (a[0] as int) < (b[0] as int)
    } else {
        chars_le(a.drop_first(), b.drop_first())
    }
}

/// (shape ID, stored ID) pairs in order: by shape ID, then by stored ID.
pub open spec fn entry_le(x: (Seq<char>, u32), y: (Seq<char>, u32)) -> bool {
    if x.0 == y.0 {
        x.1 <= y.1
    } else {
        chars_le(x.0, y.0)
    }
}

pub(crate) proof fn lemma_chars_le_reflexive(a: Seq<char>)
    ensures
        chars_le(a, a),
    decreases a.len(),
{
    if a.len() > 0 {
        lemma_chars_le_reflexive(a.drop_first());
    }
}

pub(crate) proof fn lemma_chars_le_antisymmetric(a: Seq<char>, b: Seq<char>)
    requires
        chars_le(a, b),
        chars_le(b, a),
    ensures
        a == b,
    decreases a.len(),
{
    if a.len() > 0 && b.len() > 0 {
        if a[0] == b[0] {
            lemma_chars_le_antisymmetric(a.drop_first(), b.drop_first());
            assert(a =~= seq![a[0]] + a.drop_first());
            assert(b =~= seq![b[0]] + b.drop_first());
        } else {
            assert((a[0] as int) != (b[0] as int));
        }
    } else if a.len() == 0 && b.len() == 0 {
        assert(a =~= b);
    }
}

pub(crate) proof fn lemma_chars_le_transitive(a: Seq<char>, b: Seq<char>, c: Seq<char>)
    requires
        chars_le(a, b),
        chars_le(b, c),
    ensures
        chars_le(a, c),
    decreases a.len(),
{
    if a.len() > 0 && b.len() > 0 && c.len() > 0 {
        if a[0] == b[0] && b[0] == c[0] {
            lemma_chars_le_transitive(a.drop_first(), b.drop_first(), c.drop_first());
        }
    }
}

pub(crate) proof fn lemma_chars_le_total(a: Seq<char>, b: Seq<char>)
    ensures
        chars_le(a, b) || chars_le(b, a),
    decreases a.len(),
{
    if a.len() > 0 && b.len() > 0 {
        if a[0] == b[0] {
            lemma_chars_le_total(a.drop_first(), b.drop_first());
        } else {
            assert((a[0] as int) != (b[0] as int)) by {
                assert(a[0] != b[0]);
            }
        }
    }
}

/// The order on pairs is total.
proof fn lemma_entry_le_total_ordering()
    ensures
        total_ordering(pair_order()),
{
    let leq = pair_order();
    assert forall|x: (Seq<char>, u32)| #[trigger] leq(x, x) by {
        lemma_chars_le_reflexive(x.0);
    }
    assert forall|x: (Seq<char>, u32), y: (Seq<char>, u32)| #[trigger] leq(x, y) && #[trigger] leq(y, x)
        implies x == y by {
        if x.0 != y.0 {
            lemma_chars_le_antisymmetric(x.0, y.0);
        }
    }
    assert forall|x: (Seq<char>, u32), y: (Seq<char>, u32), z: (Seq<char>, u32)|
        #[trigger] leq(x, y) && #[trigger] leq(y, z) implies leq(x, z) by {
        if x.0 == y.0 && y.0 == z.0 {
        } else if x.0 == y.0 {
        } else if y.0 == z.0 {
        } else {
            lemma_chars_le_transitive(x.0, y.0, z.0);
            if x.0 == z.0 {
                lemma_chars_le_antisymmetric(x.0, y.0);
            }
        }
    }
    assert forall|x: (Seq<char>, u32), y: (Seq<char>, u32)| #[trigger] leq(x, y) || #[trigger] leq(y, x) by {
        lemma_chars_le_total(x.0, y.0);
    }
}

/// One shape of a page as the save sees it: its session ID, the source ID stored with it, and
/// whether it came from the package.
#[derive(Clone, Debug, PartialEq, Eq)]
pub struct SourceEntry {
    pub id: String,
    pub source_id: u32,
    pub is_original: bool,
}

/// The added shapes as (session ID, stored ID), in page order.
pub open spec fn added_entries(entries: Seq<SourceEntry>) -> Seq<(Seq<char>, u32)>
    decreases entries.len(),
{
    if entries.len() == 0 {
        Seq::empty()
    } else {
        let rest = added_entries(entries.drop_last());
        if entries.last().is_original {
            rest
        } else {
            rest.push((entries.last().id@, entries.last().source_id))
        }
    }
}

/// The IDs the original shapes hold, in page order.
pub open spec fn original_ids(entries: Seq<SourceEntry>) -> Seq<u32>
    decreases entries.len(),
{
    if entries.len() == 0 {
        Seq::empty()
    } else {
        let rest = original_ids(entries.drop_last());
        if entries.last().is_original {
            rest.push(entries.last().source_id)
        } else {
            rest
        }
    }
}

/// The largest of `largest` and the original shapes' IDs.
pub open spec fn largest_original(entries: Seq<SourceEntry>, largest: u32) -> u32
    decreases entries.len(),
{
    if entries.len() == 0 {
        largest
    } else {
        let rest = largest_original(entries.drop_last(), largest);
        if entries.last().is_original && entries.last().source_id > rest {
            entries.last().source_id
        } else {
            rest
        }
    }
}

/// The order on (session ID, stored ID) pairs.
pub open spec fn pair_order() -> spec_fn((Seq<char>, u32), (Seq<char>, u32)) -> bool {
    |x: (Seq<char>, u32), y: (Seq<char>, u32)| entry_le(x, y)
}

/// The added shapes in allocation order: by session ID, then by stored ID.
pub open spec fn allocation_order(entries: Seq<SourceEntry>) -> Seq<(Seq<char>, u32)> {
    added_entries(entries).sort_by(pair_order())
}

/// The IDs the added shapes get, in allocation order: the stored ID while it is nonzero and
/// free, else one more than the largest ID so far; `None` when that would pass `u32::MAX`.
pub open spec fn allocated(added: Seq<(Seq<char>, u32)>, taken: Set<u32>, largest: u32) -> Option<
    Seq<(Seq<char>, u32)>,
>
    decreases added.len(),
{
    if added.len() == 0 {
        Some(Seq::empty())
    } else {
        let (id, stored) = added[0];
        if stored != 0 && !taken.contains(stored) {
            let top = if stored > largest {
                stored
            } else {
                largest
            };
            match allocated(added.drop_first(), taken.insert(stored), top) {
                Some(rest) => Some(seq![(id, stored)] + rest),
                None => None,
            }
        } else if largest == u32::MAX {
            None
        } else {
            let next = (largest + 1) as u32;
            match allocated(added.drop_first(), taken.insert(next), next) {
                Some(rest) => Some(seq![(id, next)] + rest),
                None => None,
            }
        }
    }
}

/// No allocated ID is taken already, none is allocated twice, and none is zero, as long as
/// every taken ID is at most `largest`.
pub proof fn lemma_allocated_fresh(added: Seq<(Seq<char>, u32)>, taken: Set<u32>, largest: u32)
    requires
        forall|t: u32| taken.contains(t) ==> t <= largest,
        allocated(added, taken, largest) is Some,
    ensures
        ({
            let out = allocated(added, taken, largest).unwrap();
            &&& out.len() == added.len()
            &&& forall|k: int| 0 <= k < out.len() ==> (#[trigger] out[k]).0 == added[k].0
            &&& forall|k: int| 0 <= k < out.len() ==> !taken.contains((#[trigger] out[k]).1) && out[k].1 != 0
            &&& forall|a: int, b: int| 0 <= a < b < out.len() ==> (#[trigger] out[a]).1 != (#[trigger] out[b]).1
        }),
    decreases added.len(),
{
    if added.len() > 0 {
        let (id, stored) = added[0];
        let out = allocated(added, taken, largest).unwrap();
        let (picked, next_taken, next_largest) = if stored != 0 && !taken.contains(stored) {
            (stored, taken.insert(stored), if stored > largest { stored } else { largest })
        } else {
            (((largest + 1) as u32), taken.insert((largest + 1) as u32), (largest + 1) as u32)
        };
        lemma_allocated_fresh(added.drop_first(), next_taken, next_largest);
        let rest = allocated(added.drop_first(), next_taken, next_largest).unwrap();
        assert(out == seq![(id, picked)] + rest);
        assert forall|k: int| 0 <= k < out.len() implies (#[trigger] out[k]).0 == added[k].0 by {
            if k > 0 {
                assert(out[k] == rest[k - 1]);
            }
        }
        assert forall|k: int| 0 <= k < out.len() implies !taken.contains((#[trigger] out[k]).1) && out[k].1 != 0 by {
            if k > 0 {
                assert(out[k] == rest[k - 1]);
                assert(!next_taken.contains(rest[k - 1].1));
            }
        }
        assert forall|a: int, b: int| 0 <= a < b < out.len() implies (#[trigger] out[a]).1 != (#[trigger] out[b]).1 by {
            assert(out[b] == rest[b - 1]);
            if a > 0 {
                assert(out[a] == rest[a - 1]);
            } else {
                assert(next_taken.contains(picked));
            }
        }
    }
}

/// Whether `a` sorts no later than `b`, by code point.
pub(crate) fn chars_le_exec(a: &str, b: &str) -> (result: bool)
    ensures
        result == chars_le(a@, b@),
{
    let x = chars_of(a);
    let y = chars_of(b);
    let mut i: usize = 0;
    assert(x@.skip(0) == x@ && y@.skip(0) == y@);
    while i < x.len() && i < y.len() && x[i] == y[i]
        invariant
            i <= x@.len(),
            i <= y@.len(),
            chars_le(x@, y@) == chars_le(x@.skip(i as int), y@.skip(i as int)),
        decreases x.len() - i,
    {
        assert(x@.skip(i as int).drop_first() == x@.skip(i + 1));
        assert(y@.skip(i as int).drop_first() == y@.skip(i + 1));
        i = i + 1;
    }
    if i == x.len() {
        assert(x@.skip(i as int).len() == 0);
        true
    } else if i == y.len() {
        assert(y@.skip(i as int).len() == 0);
        false
    } else {
        assert(x@.skip(i as int)[0] == x@[i as int]);
        assert(y@.skip(i as int)[0] == y@[i as int]);
        x[i] < y[i]
    }
}

/// Whether pair `a` sorts no later than pair `b`.
fn pair_le(a: &(String, u32), b: &(String, u32)) -> (result: bool)
    ensures
        result == entry_le((a.0@, a.1), (b.0@, b.1)),
{
    let x = chars_of(a.0.as_str());
    let y = chars_of(b.0.as_str());
    if chars_eq(&x, &y) {
        a.1 <= b.1
    } else {
        chars_le_exec(a.0.as_str(), b.0.as_str())
    }
}

/// The added shapes of `entries`, in allocation order.
fn sorted_added(entries: &[SourceEntry]) -> (result: Vec<(String, u32)>)
    ensures
        sources_view(result@) == allocation_order(entries@),
{
    broadcast use vstd::seq_lib::group_to_multiset_ensures;

    let ghost leq = pair_order();
    proof {
        lemma_entry_le_total_ordering();
    }
    let ghost all = entries@;
    let mut out: Vec<(String, u32)> = Vec::new();
    let mut i: usize = 0;
    while i < entries.len()
        invariant
            i <= entries@.len(),
            all == entries@,
            leq == pair_order(),
            total_ordering(leq),
            sorted_by(sources_view(out@), leq),
            sources_view(out@).to_multiset() == added_entries(all.take(i as int)).to_multiset(),
        decreases entries.len() - i,
    {
        assert(all.take(i + 1).drop_last() == all.take(i as int));
        assert(all.take(i + 1).last() == all[i as int]);
        let entry = &entries[i];
        if entry.is_original {
            assert(added_entries(all.take(i + 1)) == added_entries(all.take(i as int)));
        } else {
            assert(added_entries(all.take(i + 1)) == added_entries(all.take(i as int)).push(
                (entry.id@, entry.source_id),
            ));
            let item = (entry.id.clone(), entry.source_id);
            let ghost v = (entry.id@, entry.source_id);
            let ghost before = sources_view(out@);
            let mut p: usize = 0;
            while p < out.len() && pair_le(&out[p], &item)
                invariant
                    p <= out@.len(),
                    before == sources_view(out@),
                    v == (item.0@, item.1),
                    leq == pair_order(),
                    forall|k: int| 0 <= k < p ==> #[trigger] leq(before[k], v),
                decreases out.len() - p,
            {
                assert(before[p as int] == (out@[p as int].0@, out@[p as int].1));
                p = p + 1;
            }
            assert forall|k: int| p <= k < before.len() implies #[trigger] leq(v, before[k]) by {
                assert(before[p as int] == (out@[p as int].0@, out@[p as int].1));
                assert(!leq(before[p as int], v));
                assert(leq(v, before[p as int]));
                if k > p {
                    assert(leq(before[p as int], before[k]));
                }
            }
            out.insert(p, item);
            proof {
                assert(sources_view(out@) =~= before.insert(p as int, v));
                before.insert_ensures(p as int, v);
                vstd::seq_lib::to_multiset_insert(before, p as int, v);
                let after = before.insert(p as int, v);
                assert forall|a: int, b: int| 0 <= a < b < after.len() implies #[trigger] leq(after[a], after[b]) by {
                    if b < p {
                    } else if b == p {
                    } else if a < p {
                        assert(after[b] == before[b - 1]);
                        assert(leq(before[a], v));
                        assert(leq(v, before[b - 1]));
                    } else if a == p {
                        assert(after[b] == before[b - 1]);
                    } else {
                        assert(after[b] == before[b - 1]);
                        assert(after[a] == before[a - 1]);
                    }
                }
                let shorter = added_entries(all.take(i as int));
                vstd::seq_lib::to_multiset_build(shorter, v);
                assert(sources_view(out@).to_multiset() == before.to_multiset().insert(v));
            }
        }
        i = i + 1;
    }
    assert(all.take(all.len() as int) == all);
    proof {
        let added = added_entries(all);
        added.lemma_sort_by_ensures(leq);
        vstd::seq_lib::lemma_sorted_unique(sources_view(out@), added.sort_by(leq), leq);
    }
    out
}

/// The source ID each added shape is written with, in allocation order: originals keep their
/// IDs, an added shape keeps its stored ID while that is nonzero and not yet taken, and any
/// other added shape gets one more than the largest ID so far. Fails when that would pass
/// `u32::MAX`. A lookup takes the last entry for a shape.
pub fn materialized_source_ids(entries: &[SourceEntry], largest: u32) -> (result: EditResult<Vec<(String, u32)>>)
    ensures
        match allocated(
            allocation_order(entries@),
            original_ids(entries@).to_set(),
            largest_original(entries@, largest),
        ) {
            Some(out) => result matches Ok(ids) && sources_view(ids@) == out,
            None => result matches Err(EditError::InvalidState(message)) && message@
                == "cannot allocate a materialized source ID"@,
        },
{
    let ghost all = entries@;
    let mut taken: Vec<u32> = Vec::new();
    let mut top: u32 = largest;
    let mut i: usize = 0;
    while i < entries.len()
        invariant
            i <= entries@.len(),
            all == entries@,
            top == largest_original(all.take(i as int), largest),
            taken@ == original_ids(all.take(i as int)),
        decreases entries.len() - i,
    {
        assert(all.take(i + 1).drop_last() == all.take(i as int));
        assert(all.take(i + 1).last() == all[i as int]);
        let entry = &entries[i];
        let ghost before = taken@;
        if entry.is_original {
            if entry.source_id > top {
                top = entry.source_id;
            }
            taken.push(entry.source_id);
        }
        i = i + 1;
    }
    assert(all.take(all.len() as int) == all);
    let order = sorted_added(entries);
    let ghost sorted = sources_view(order@);
    let mut out: Vec<(String, u32)> = Vec::new();
    let mut k: usize = 0;
    proof {
        assert(sorted.skip(0) == sorted);
        assert(sources_view(out@) == Seq::<(Seq<char>, u32)>::empty());
        match allocated(sorted, taken@.to_set(), top) {
            Some(rest) => {
                assert(Seq::<(Seq<char>, u32)>::empty() + rest == rest);
            },
            None => {},
        }
    }
    while k < order.len()
        invariant
            k <= order@.len(),
            all == entries@,
            sorted == sources_view(order@),
            sorted == allocation_order(all),
            allocated(sorted, original_ids(all).to_set(), largest_original(all, largest)) == match allocated(
                sorted.skip(k as int),
                taken@.to_set(),
                top,
            ) {
                Some(rest) => Some(sources_view(out@) + rest),
                None => None::<Seq<(Seq<char>, u32)>>,
            },
        decreases order.len() - k,
    {
        let ghost rest = sorted.skip(k as int);
        assert(rest[0] == (order@[k as int].0@, order@[k as int].1));
        assert(rest.drop_first() == sorted.skip(k + 1));
        let (id, stored) = (&order[k].0, order[k].1);
        let ghost before = taken@;
        let ghost out_before = sources_view(out@);
        let mut free = stored != 0;
        if free {
            let mut t: usize = 0;
            while t < taken.len()
                invariant
                    t <= taken@.len(),
                    free == forall|j: int| 0 <= j < t ==> taken@[j] != stored,
                decreases taken.len() - t,
            {
                if taken[t] == stored {
                    free = false;
                }
                t = t + 1;
            }
        }
        assert(free == (stored != 0 && !before.to_set().contains(stored)));
        let picked: u32;
        if free {
            picked = stored;
            if stored > top {
                top = stored;
            }
        } else {
            if top == u32::MAX {
                assert(allocated(rest, before.to_set(), top) is None);
                return Err(invalid_state("cannot allocate a materialized source ID"));
            }
            top = top + 1;
            picked = top;
        }
        taken.push(picked);
        proof {
            before.lemma_push_to_set_commute(picked);
        }
        out.push((id.clone(), picked));
        assert(sources_view(out@) =~= out_before.push((id@, picked)));
        proof {
            let next = allocated(sorted.skip(k + 1), taken@.to_set(), top);
            match next {
                Some(tail) => {
                    assert(out_before + (seq![(id@, picked)] + tail) =~= out_before.push((id@, picked)) + tail);
                },
                None => {},
            }
        }
        k = k + 1;
    }
    assert(sorted.skip(sorted.len() as int) =~= Seq::<(Seq<char>, u32)>::empty());
    assert(sources_view(out@) + Seq::<(Seq<char>, u32)>::empty() == sources_view(out@));
    Ok(out)
}

proof fn lemma_largest_original_bounds(entries: Seq<SourceEntry>, largest: u32)
    ensures
        largest <= largest_original(entries, largest),
        forall|id: u32| original_ids(entries).to_set().contains(id) ==> id <= largest_original(entries, largest),
    decreases entries.len(),
{
    if entries.len() > 0 {
        let shorter = entries.drop_last();
        lemma_largest_original_bounds(shorter, largest);
        let rest = original_ids(shorter);
        assert forall|id: u32| original_ids(entries).to_set().contains(id) implies id <= largest_original(
            entries,
            largest,
        ) by {
            if entries.last().is_original {
                rest.lemma_push_to_set_commute(entries.last().source_id);
            }
        }
    }
}

/// Every shape the save materializes gets an ID of its own: the IDs handed out are nonzero,
/// differ from each other, and differ from every original shape's ID.
pub proof fn lemma_materialized_ids_fresh(entries: Seq<SourceEntry>, largest: u32)
    requires
        allocated(
            allocation_order(entries),
            original_ids(entries).to_set(),
            largest_original(entries, largest),
        ) is Some,
    ensures
        ({
            let out = allocated(
                allocation_order(entries),
                original_ids(entries).to_set(),
                largest_original(entries, largest),
            ).unwrap();
            &&& forall|k: int| 0 <= k < out.len() ==> (#[trigger] out[k]).1 != 0 && !original_ids(
                entries,
            ).contains(out[k].1)
            &&& forall|a: int, b: int| 0 <= a < b < out.len() ==> (#[trigger] out[a]).1 != (#[trigger] out[b]).1
        }),
{
    lemma_largest_original_bounds(entries, largest);
    lemma_allocated_fresh(
        allocation_order(entries),
        original_ids(entries).to_set(),
        largest_original(entries, largest),
    );
}

} // verus!
