//! Repairing the ordered ID lists of a merged document. Concurrent edits can leave an ID twice
//! in one list, or a shape order naming a shape that no longer exists; the repaired list keeps,
//! for every ID, only its last entry, drops shape IDs that name no shape, and keeps entries
//! that are not strings where they stand.
use vstd::prelude::*;

use crate::text::{owned, str_eq};

verus! {

/// An entry of a list as plain text, `None` for an entry that is not a string.
pub open spec fn item_view(item: Option<String>) -> Option<Seq<char>> {
    match item {
        Some(id) => Some(id@),
        None => None,
    }
}

pub open spec fn items_view(items: Seq<Option<String>>) -> Seq<Option<Seq<char>>> {
    items.map_values(|item: Option<String>| item_view(item))
}

pub open spec fn keys_view(keys: Seq<String>) -> Seq<Seq<char>> {
    keys.map_values(|key: String| key@)
}

/// Whether a list may hold `id`: any ID in a page order, a shape's ID in a shape order.
pub open spec fn admitted(id: Seq<char>, shape_keys: Option<Seq<Seq<char>>>) -> bool {
    match shape_keys {
        Some(keys) => keys.contains(id),
        None => true,
    }
}

/// The entry at `i` stays: it is not a string, or it is an admitted ID that no later entry
/// repeats.
pub open spec fn stays(items: Seq<Option<Seq<char>>>, i: int, shape_keys: Option<Seq<Seq<char>>>) -> bool {
    match items[i] {
        None => true,
        Some(id) => admitted(id, shape_keys) && forall|j: int|
            i < j < items.len() ==> items[j] != Some(id),
    }
}

/// The entries among the first `n` that stay, in order.
pub open spec fn staying(
    items: Seq<Option<Seq<char>>>,
    n: int,
    shape_keys: Option<Seq<Seq<char>>>,
) -> Seq<Option<Seq<char>>>
    decreases n,
{
    if n <= 0 {
        Seq::empty()
    } else if stays(items, n - 1, shape_keys) {
        staying(items, n - 1, shape_keys).push(items[n - 1])
    } else {
        staying(items, n - 1, shape_keys)
    }
}

/// The list once repaired.
pub open spec fn repaired(
    items: Seq<Option<Seq<char>>>,
    shape_keys: Option<Seq<Seq<char>>>,
) -> Seq<Option<Seq<char>>> {
    staying(items, items.len() as int, shape_keys)
}

/// The admitted IDs that entries from `i` on name.
pub open spec fn later_ids(
    items: Seq<Option<Seq<char>>>,
    i: int,
    shape_keys: Option<Seq<Seq<char>>>,
) -> Set<Seq<char>> {
    Set::new(
        |id: Seq<char>|
            admitted(id, shape_keys) && exists|j: int| i <= j < items.len() && items[j] == Some(id),
    )
}

proof fn lemma_later_ids_step(
    items: Seq<Option<Seq<char>>>,
    i: int,
    shape_keys: Option<Seq<Seq<char>>>,
)
    requires
        0 <= i < items.len(),
    ensures
        later_ids(items, i, shape_keys) == (match items[i] {
            Some(id) => if admitted(id, shape_keys) {
                later_ids(items, i + 1, shape_keys).insert(id)
            } else {
                later_ids(items, i + 1, shape_keys)
            },
            None => later_ids(items, i + 1, shape_keys),
        }),
{
    let now = later_ids(items, i, shape_keys);
    let next = later_ids(items, i + 1, shape_keys);
    assert forall|x: Seq<char>| #[trigger] now.contains(x) implies (match items[i] {
        Some(id) => if admitted(id, shape_keys) {
            next.insert(id)
        } else {
            next
        },
        None => next,
    }).contains(x) by {
        let j = choose|j: int| i <= j < items.len() && items[j] == Some(x);
        if j > i {
            assert(next.contains(x));
        }
    }
    assert forall|x: Seq<char>| #[trigger] next.contains(x) implies now.contains(x) by {
        let j = choose|j: int| i + 1 <= j < items.len() && items[j] == Some(x);
        assert(i <= j < items.len() && items[j] == Some(x));
    }
    match items[i] {
        Some(id) => {
            if admitted(id, shape_keys) {
                assert(now.contains(id));
                assert(now =~= next.insert(id));
            } else {
                assert(now =~= next);
            }
        },
        None => {
            assert(now =~= next);
        },
    }
}

/// No ID occurs twice, and every ID is one the list may hold.
pub open spec fn clean(items: Seq<Option<Seq<char>>>, shape_keys: Option<Seq<Seq<char>>>) -> bool {
    &&& forall|p: int, q: int|
        0 <= p < q < items.len() && items[p] is Some ==> #[trigger] items[p] != #[trigger] items[q]
    &&& forall|p: int|
        0 <= p < items.len() && items[p] is Some ==> admitted(
            #[trigger] items[p].unwrap(),
            shape_keys,
        )
}

/// `x` is an entry among the first `n` that stays.
spec fn staying_source(
    items: Seq<Option<Seq<char>>>,
    n: int,
    shape_keys: Option<Seq<Seq<char>>>,
    x: Option<Seq<char>>,
) -> bool {
    exists|j: int| 0 <= j < n && stays(items, j, shape_keys) && items[j] == x
}

proof fn lemma_staying_facts(items: Seq<Option<Seq<char>>>, n: int, shape_keys: Option<Seq<Seq<char>>>)
    requires
        0 <= n <= items.len(),
    ensures
        forall|p: int|
            0 <= p < staying(items, n, shape_keys).len() ==> staying_source(
                items,
                n,
                shape_keys,
                #[trigger] staying(items, n, shape_keys)[p],
            ),
        forall|j: int|
            0 <= j < n && stays(items, j, shape_keys) ==> staying(items, n, shape_keys).contains(
                #[trigger] items[j],
            ),
        clean(staying(items, n, shape_keys), shape_keys),
    decreases n,
{
    if n == 0 {
        assert(staying(items, n, shape_keys).len() == 0);
    } else {
        lemma_staying_facts(items, n - 1, shape_keys);
        let before = staying(items, n - 1, shape_keys);
        let now = staying(items, n, shape_keys);
        if stays(items, n - 1, shape_keys) {
            assert(now == before.push(items[n - 1]));
            assert forall|p: int| 0 <= p < now.len() implies staying_source(items, n, shape_keys, #[trigger] now[p]) by {
                if p < before.len() {
                    assert(now[p] == before[p]);
                    assert(staying_source(items, n - 1, shape_keys, before[p]));
                    let j = choose|j: int|
                        0 <= j < n - 1 && stays(items, j, shape_keys) && items[j] == before[p];
                    assert(0 <= j < n && stays(items, j, shape_keys) && items[j] == now[p]);
                } else {
                    assert(now[p] == items[n - 1]);
                    assert(stays(items, n - 1, shape_keys));
                }
            }
            assert forall|j: int| 0 <= j < n && stays(items, j, shape_keys) implies now.contains(
                #[trigger] items[j],
            ) by {
                if j < n - 1 {
                    let p = choose|p: int| 0 <= p < before.len() && before[p] == items[j];
                    assert(now[p] == items[j]);
                } else {
                    assert(now[before.len() as int] == items[j]);
                }
            }
            assert forall|p: int, q: int|
                0 <= p < q < now.len() && now[p] is Some implies #[trigger] now[p]
                != #[trigger] now[q] by {
                if q < before.len() {
                    assert(now[p] == before[p] && now[q] == before[q]);
                } else {
                    assert(now[p] == before[p]);
                    assert(staying_source(items, n - 1, shape_keys, before[p]));
                    let j = choose|j: int|
                        0 <= j < n - 1 && stays(items, j, shape_keys) && items[j] == before[p];
                    assert(items[j] != items[n - 1]);
                }
            }
            assert forall|p: int| 0 <= p < now.len() && now[p] is Some implies admitted(
                #[trigger] now[p].unwrap(),
                shape_keys,
            ) by {
                if p < before.len() {
                    assert(now[p] == before[p]);
                }
            }
        } else {
            assert(now == before);
            assert forall|p: int| 0 <= p < now.len() implies staying_source(items, n, shape_keys, #[trigger] now[p]) by {
                assert(now[p] == before[p]);
                assert(staying_source(items, n - 1, shape_keys, before[p]));
                let j = choose|j: int|
                    0 <= j < n - 1 && stays(items, j, shape_keys) && items[j] == before[p];
                assert(0 <= j < n && stays(items, j, shape_keys) && items[j] == now[p]);
            }
        }
    }
}

proof fn lemma_last_occurrence(items: Seq<Option<Seq<char>>>, x: Option<Seq<char>>, j: int) -> (r: int)
    requires
        0 <= j < items.len(),
        items[j] == x,
    ensures
        j <= r < items.len(),
        items[r] == x,
        forall|k: int| r < k < items.len() ==> items[k] != x,
    decreases items.len() - j,
{
    if exists|k: int| j < k < items.len() && items[k] == x {
        let k = choose|k: int| j < k < items.len() && items[k] == x;
        lemma_last_occurrence(items, x, k)
    } else {
        j
    }
}

proof fn lemma_clean_stays(items: Seq<Option<Seq<char>>>, n: int, shape_keys: Option<Seq<Seq<char>>>)
    requires
        0 <= n <= items.len(),
        clean(items, shape_keys),
    ensures
        staying(items, n, shape_keys) == items.take(n),
    decreases n,
{
    if n > 0 {
        lemma_clean_stays(items, n - 1, shape_keys);
        if items[n - 1] is Some {
            assert(admitted(items[n - 1].unwrap(), shape_keys));
            assert forall|j: int| n - 1 < j < items.len() implies #[trigger] items[j] != items[n - 1] by {
                assert(items[n - 1] != items[j]);
            }
        }
        assert(items.take(n - 1).push(items[n - 1]) =~= items.take(n));
    }
}

/// A repaired list names every ID at most once, and a repaired shape order names only shapes.
pub proof fn lemma_repaired_clean(items: Seq<Option<Seq<char>>>, shape_keys: Option<Seq<Seq<char>>>)
    ensures
        clean(repaired(items, shape_keys), shape_keys),
{
    lemma_staying_facts(items, items.len() as int, shape_keys);
}

/// Repairing loses no ID that the list may hold: the repaired list names exactly the admitted
/// IDs that the list named.
pub proof fn lemma_repair_keeps_ids(
    items: Seq<Option<Seq<char>>>,
    shape_keys: Option<Seq<Seq<char>>>,
    id: Seq<char>,
)
    ensures
        repaired(items, shape_keys).contains(Some(id)) <==> (admitted(id, shape_keys)
            && items.contains(Some(id))),
{
    let n = items.len() as int;
    let out = repaired(items, shape_keys);
    lemma_staying_facts(items, n, shape_keys);
    if out.contains(Some(id)) {
        let p = choose|p: int| 0 <= p < out.len() && out[p] == Some(id);
        assert(staying_source(items, n, shape_keys, out[p]));
        let j = choose|j: int| 0 <= j < n && stays(items, j, shape_keys) && items[j] == out[p];
        assert(items[j] == Some(id));
    }
    if admitted(id, shape_keys) && items.contains(Some(id)) {
        let j0 = choose|j: int| 0 <= j < n && items[j] == Some(id);
        let last = lemma_last_occurrence(items, Some(id), j0);
        assert(stays(items, last, shape_keys));
        assert(out.contains(items[last]));
    }
}

/// Repairing a repaired list changes nothing.
pub proof fn lemma_repair_idempotent(
    items: Seq<Option<Seq<char>>>,
    shape_keys: Option<Seq<Seq<char>>>,
)
    ensures
        repaired(repaired(items, shape_keys), shape_keys) == repaired(items, shape_keys),
{
    let out = repaired(items, shape_keys);
    lemma_repaired_clean(items, shape_keys);
    lemma_clean_stays(out, out.len() as int, shape_keys);
    assert(out.take(out.len() as int) =~= out);
}

pub(crate) fn contains_str(list: &Vec<String>, id: &str) -> (result: bool)
    ensures
        result == keys_view(list@).contains(id@),
{
    let mut i: usize = 0;
    while i < list.len()
        invariant
            i <= list@.len(),
            forall|t: int| 0 <= t < i ==> list@[t]@ != id@,
        decreases list.len() - i,
    {
        if str_eq(list[i].as_str(), id) {
            assert(keys_view(list@)[i as int] == id@);
            return true;
        }
        i = i + 1;
    }
    assert forall|t: int| 0 <= t < keys_view(list@).len() implies keys_view(list@)[t] != id@ by {
        assert(keys_view(list@)[t] == list@[t]@);
    }
    false
}

fn is_admitted(id: &str, shape_keys: Option<&Vec<String>>) -> (result: bool)
    ensures
        result == admitted(
            id@,
            match shape_keys {
                Some(keys) => Some(keys_view(keys@)),
                None => None,
            },
        ),
{
    match shape_keys {
        Some(keys) => contains_str(keys, id),
        None => true,
    }
}

/// Which entries of one ordered ID list stay when it is repaired, position by position.
pub(crate) fn staying_flags(order: &Vec<Option<String>>, shape_keys: Option<&Vec<String>>) -> (keep: Vec<bool>)
    ensures
        keep@.len() == order@.len(),
        forall|t: int| 0 <= t < order@.len() ==> #[trigger] keep@[t] == stays(
            items_view(order@),
            t,
            match shape_keys {
                Some(keys) => Some(keys_view(keys@)),
                None => None,
            },
        ),
{
    let ghost items = items_view(order@);
    let ghost keys = match shape_keys {
        Some(k) => Some(keys_view(k@)),
        None => None,
    };
    let len = order.len();
    let mut keep: Vec<bool> = Vec::new();
    let mut n: usize = 0;
    while n < len
        invariant
            n <= len,
            len == order@.len(),
            keep@.len() == n,
        decreases len - n,
    {
        keep.push(false);
        n = n + 1;
    }
    let mut seen: Vec<String> = Vec::new();
    let mut i: usize = len;
    while i > 0
        invariant
            i <= len,
            len == order@.len(),
            items == items_view(order@),
            keys == (match shape_keys {
                Some(k) => Some(keys_view(k@)),
                None => None,
            }),
            keep@.len() == len,
            forall|t: int| i <= t < len ==> #[trigger] keep@[t] == stays(items, t, keys),
            keys_view(seen@).to_set() == later_ids(items, i as int, keys),
        decreases i,
    {
        i = i - 1;
        assert(items[i as int] == item_view(order@[i as int]));
        proof {
            lemma_later_ids_step(items, i as int, keys);
        }
        match &order[i] {
            None => {
                keep.set(i, true);
            },
            Some(id) => {
                let fresh = is_admitted(id.as_str(), shape_keys) && !contains_str(
                    &seen,
                    id.as_str(),
                );
                if fresh {
                    let ghost before = keys_view(seen@);
                    seen.push(owned(id.as_str()));
                    assert(keys_view(seen@) =~= before.push(id@));
                    proof {
                        before.lemma_push_to_set_commute(id@);
                    }
                }
                proof {
                    if fresh {
                        assert(!later_ids(items, i + 1, keys).contains(id@));
                        assert(forall|j: int| i < j < len ==> items[j] != Some(id@));
                    } else if admitted(id@, keys) {
                        assert(keys_view(seen@).to_set().contains(id@));
                        assert(later_ids(items, i + 1, keys).insert(id@) =~= later_ids(
                            items,
                            i + 1,
                            keys,
                        ));
                    }
                }
                keep.set(i, fresh);
            },
        }
    }
    keep
}

/// Repairs one ordered ID list. `shape_keys` holds the shape IDs of the document where the
/// list is a shape order, and is `None` for the page order.
pub fn repair_order(order: &Vec<Option<String>>, shape_keys: Option<&Vec<String>>) -> (result: Vec<
    Option<String>,
>)
    ensures
        items_view(result@) == repaired(
            items_view(order@),
            match shape_keys {
                Some(keys) => Some(keys_view(keys@)),
                None => None,
            },
        ),
{
    let ghost items = items_view(order@);
    let ghost keys = match shape_keys {
        Some(k) => Some(keys_view(k@)),
        None => None,
    };
    let len = order.len();
    let keep = staying_flags(order, shape_keys);
    let mut result: Vec<Option<String>> = Vec::new();
    let mut t: usize = 0;
    while t < len
        invariant
            t <= len,
            len == order@.len(),
            items == items_view(order@),
            keep@.len() == len,
            forall|u: int| 0 <= u < len ==> #[trigger] keep@[u] == stays(items, u, keys),
            items_view(result@) == staying(items, t as int, keys),
        decreases len - t,
    {
        if keep[t] {
            let item = match &order[t] {
                Some(id) => Some(owned(id.as_str())),
                None => None,
            };
            assert(item_view(item) == items[t as int]);
            result.push(item);
            assert(items_view(result@) =~= staying(items, t as int, keys).push(items[t as int]));
        }
        t = t + 1;
    }
    result
}

} // verus!
