//! Planning a batch of shape deletions: which lists lose which entries, in what order, and
//! what the caller is told.
use vstd::prelude::*;

use crate::model::{invalid_state, EditError, EditResult, ShapeDelete, ShapeReceipt};
use crate::orders::{contains_str, items_view, keys_view};
use crate::shape_tree::{
    entries_view, fault_error, shape_tree_entries, tree_walk, PageRecord, Sheets, TreeFault,
};
use crate::text::str_eq;

verus! {

pub type EntryView = (Seq<char>, Option<Seq<char>>, int, int);

/// Why a delete batch is refused.
pub enum DeleteFault {
    Page(Seq<char>),
    State(Seq<char>),
    Tree(TreeFault),
    Shape(Seq<char>),
}

pub open spec fn delete_fault_error(error: EditError, fault: DeleteFault) -> bool {
    match fault {
        DeleteFault::Page(key) => error matches EditError::PageNotFound(k) && k@ == key,
        DeleteFault::State(message) => error matches EditError::InvalidState(m) && m@ == message,
        DeleteFault::Tree(fault) => fault_error(error, fault),
        DeleteFault::Shape(id) => error matches EditError::ShapeNotFound(k) && k@ == id,
    }
}

/// The page stored under `id`, when its value is a map.
pub open spec fn delete_page(pages: Seq<(String, Option<PageRecord>)>, id: Seq<char>) -> Option<PageRecord> {
    if exists|i: int| 0 <= i < pages.len() && #[trigger] pages[i].0@ == id {
        pages[choose|i: int| 0 <= i < pages.len() && #[trigger] pages[i].0@ == id].1
    } else {
        None
    }
}

/// The position of the first entry from the `k`-th on with ID `id`.
pub open spec fn first_match(entries: Seq<EntryView>, id: Seq<char>, k: int) -> Option<int>
    decreases entries.len() - k,
{
    if k < 0 || k >= entries.len() {
        None
    } else if entries[k].0 == id {
        Some(k)
    } else {
        first_match(entries, id, k + 1)
    }
}

/// Where the subtree of the `t`-th entry ends: the first later entry, from the `k`-th on, that
/// is not deeper than it.
pub open spec fn subtree_end(entries: Seq<EntryView>, t: int, k: int) -> int
    decreases entries.len() - k,
{
    if k < 0 || k >= entries.len() || t < 0 || t >= entries.len() {
        entries.len() as int
    } else if entries[k].3 > entries[t].3 {
        subtree_end(entries, t, k + 1)
    } else {
        k
    }
}

/// The IDs of the `t`-th entry and of its subtree, in walk order.
pub open spec fn subtree_ids(entries: Seq<EntryView>, t: int) -> Seq<Seq<char>> {
    entries.subrange(t, subtree_end(entries, t, t + 1)).map_values(|e: EntryView| e.0)
}

/// Where a delete request's shape stands: the shape whose child order lists it (`None` for
/// the page's own order), its position there, and the IDs it takes with it; or why the request
/// is refused.
pub open spec fn locate_delete(
    pages: Seq<(String, Option<PageRecord>)>,
    sheets: &Sheets,
    request: ShapeDelete,
) -> Result<(Option<Seq<char>>, int, Seq<Seq<char>>), DeleteFault> {
    match delete_page(pages, request.page_id@) {
        None => Err(DeleteFault::Page(request.page_id@)),
        Some(page) => match page.shapes {
            None => Err(DeleteFault::State("missing shapes array"@)),
            Some(roots) => match tree_walk(sheets, items_view(roots@)) {
                Err(fault) => Err(DeleteFault::Tree(fault)),
                Ok(entries) => match first_match(entries, request.shape_id@, 0) {
                    None => Err(DeleteFault::Shape(request.shape_id@)),
                    Some(t) => Ok((entries[t].1, entries[t].2, subtree_ids(entries, t))),
                },
            },
        },
    }
}

/// The first request from the `k`-th on that cannot be located.
pub open spec fn first_unlocated(
    pages: Seq<(String, Option<PageRecord>)>,
    sheets: &Sheets,
    deletes: Seq<ShapeDelete>,
    k: int,
) -> Option<DeleteFault>
    decreases deletes.len() - k,
{
    if k < 0 || k >= deletes.len() {
        None
    } else {
        match locate_delete(pages, sheets, deletes[k]) {
            Err(fault) => Some(fault),
            Ok(_) => first_unlocated(pages, sheets, deletes, k + 1),
        }
    }
}

/// The first refusal from the `k`-th on.
pub open spec fn first_refusal(refusals: Seq<Option<String>>, k: int) -> Option<Seq<char>>
    decreases refusals.len() - k,
{
    if k < 0 || k >= refusals.len() {
        None
    } else {
        match refusals[k] {
            Some(reason) => Some(reason@),
            None => first_refusal(refusals, k + 1),
        }
    }
}

/// The position, among the first `n` remaining requests, of the one whose shape stands
/// furthest along its list; the earliest wins a tie.
pub open spec fn furthest(remaining: Seq<int>, froms: Seq<int>, n: int) -> int
    decreases n,
{
    if n <= 1 {
        0
    } else {
        let b = furthest(remaining, froms, n - 1);
        if froms[remaining[n - 1]] > froms[remaining[b]] {
            n - 1
        } else {
            b
        }
    }
}

/// The first `n` remaining requests whose shape is not among `gone`.
pub open spec fn kept_requests(remaining: Seq<int>, gone: Seq<Seq<char>>, shape_ids: Seq<Seq<char>>, n: int) -> Seq<
    int,
>
    decreases n,
{
    if n <= 0 || n > remaining.len() {
        Seq::empty()
    } else {
        let rest = kept_requests(remaining, gone, shape_ids, n - 1);
        if gone.contains(shape_ids[remaining[n - 1]]) {
            rest
        } else {
            rest.push(remaining[n - 1])
        }
    }
}

/// The requests in the order their deletions run: the remaining request whose shape stands
/// furthest along its list goes first, so that no deletion moves a shape still to be deleted;
/// a request whose shape went with an earlier deletion's subtree is dropped.
pub open spec fn deletion_order(
    remaining: Seq<int>,
    froms: Seq<int>,
    subtrees: Seq<Seq<Seq<char>>>,
    shape_ids: Seq<Seq<char>>,
    fuel: nat,
) -> Seq<int>
    decreases fuel,
{
    if fuel == 0 || remaining.len() == 0 {
        Seq::empty()
    } else {
        let p = furthest(remaining, froms, remaining.len() as int);
        let j = remaining[p];
        let rest = remaining.remove(p);
        seq![j] + deletion_order(
            kept_requests(rest, subtrees[j], shape_ids, rest.len() as int),
            froms,
            subtrees,
            shape_ids,
            (fuel - 1) as nat,
        )
    }
}

/// The position of the first request for shape `id`.
pub open spec fn first_request(shape_ids: Seq<Seq<char>>, id: Seq<char>) -> int {
    choose|k: int| 0 <= k < shape_ids.len() && shape_ids[k] == id && forall|j: int| 0 <= j < k ==> shape_ids[j] != id
}

/// The deletions among `order` answered at the first `n` request positions, in that order:
/// receipts follow the order of the requests.
pub open spec fn receipt_order(order: Seq<int>, shape_ids: Seq<Seq<char>>, n: int) -> Seq<int>
    decreases n,
{
    if n <= 0 {
        Seq::empty()
    } else {
        receipt_order(order, shape_ids, n - 1) + answered_at(order, shape_ids, n - 1, order.len() as int)
    }
}

/// The deletions among the first `m` of `order` whose shape was first requested at position `j`.
pub open spec fn answered_at(order: Seq<int>, shape_ids: Seq<Seq<char>>, j: int, m: int) -> Seq<int>
    decreases m,
{
    if m <= 0 || m > order.len() {
        Seq::empty()
    } else {
        let rest = answered_at(order, shape_ids, j, m - 1);
        if first_request(shape_ids, shape_ids[order[m - 1]]) == j {
            rest.push(order[m - 1])
        } else {
            rest
        }
    }
}

/// The page keys are distinct, as a map's keys are, and every page order fits the document's
/// list indices.
pub open spec fn delete_pages_wf(pages: Seq<(String, Option<PageRecord>)>) -> bool {
    &&& forall|i: int, j: int| 0 <= i < j < pages.len() ==> #[trigger] pages[i].0@ != #[trigger] pages[j].0@
    &&& forall|i: int|
        0 <= i < pages.len() ==> match (#[trigger] pages[i]).1 {
            Some(page) => page.shapes matches Some(shapes) ==> shapes@.len() <= u32::MAX,
            None => true,
        }
}

pub open spec fn opt_text_view(text: Option<String>) -> Option<Seq<char>> {
    match text {
        Some(t) => Some(t@),
        None => None,
    }
}

pub open spec fn ids_view(ids: Seq<String>) -> Seq<Seq<char>> {
    keys_view(ids)
}

fn find_delete_page(pages: &Vec<(String, Option<PageRecord>)>, id: &str) -> (result: Option<usize>)
    requires
        delete_pages_wf(pages@),
    ensures
        match result {
            Some(i) => i < pages@.len() && pages@[i as int].0@ == id@ && delete_page(pages@, id@)
                == pages@[i as int].1,
            None => delete_page(pages@, id@) is None,
        },
{
    let mut i: usize = 0;
    while i < pages.len()
        invariant
            delete_pages_wf(pages@),
            i <= pages@.len(),
            forall|j: int| 0 <= j < i ==> #[trigger] pages@[j].0@ != id@,
        decreases pages@.len() - i,
    {
        if str_eq(pages[i].0.as_str(), id) {
            proof {
                let k = choose|k: int| 0 <= k < pages@.len() && #[trigger] pages@[k].0@ == id@;
                if k != i as int {
                    assert(pages@[k].0@ != pages@[i as int].0@);
                }
            }
            return Some(i);
        }
        i = i + 1;
    }
    None
}

/// Locates one delete request.
fn locate_request(pages: &Vec<(String, Option<PageRecord>)>, sheets: &Sheets, request: &ShapeDelete) -> (result:
    EditResult<(Option<String>, u32, Vec<String>)>)
    requires
        delete_pages_wf(pages@),
        sheets.wf(),
    ensures
        match locate_delete(pages@, sheets, *request) {
            Err(fault) => result matches Err(error) && delete_fault_error(error, fault),
            Ok((parent, from, gone)) => result matches Ok((p, f, g)) && opt_text_view(p) == parent
                && f as int == from && ids_view(g@) == gone,
        },
{
    let page = match find_delete_page(pages, request.page_id.as_str()) {
        None => {
            return Err(EditError::PageNotFound(request.page_id.clone()));
        },
        Some(i) => match &pages[i].1 {
            None => {
                return Err(EditError::PageNotFound(request.page_id.clone()));
            },
            Some(page) => {
                assert(pages@[i as int].1 matches Some(p) && p.shapes matches Some(shapes)
                    ==> shapes@.len() <= u32::MAX);
                page
            },
        },
    };
    let roots = match &page.shapes {
        None => {
            return Err(invalid_state("missing shapes array"));
        },
        Some(roots) => roots,
    };
    let entries = shape_tree_entries(sheets, roots)?;
    let ghost ev = entries_view(entries@);
    let mut t: usize = 0;
    let mut found = false;
    while t < entries.len() && !found
        invariant
            t <= entries@.len(),
            ev == entries_view(entries@),
            found ==> t < entries@.len() && first_match(ev, request.shape_id@, 0) == Some(t as int),
            !found ==> first_match(ev, request.shape_id@, 0) == first_match(ev, request.shape_id@, t as int),
        decreases entries@.len() - t + (if found { 0int } else { 1int }),
    {
        if str_eq(entries[t].id.as_str(), request.shape_id.as_str()) {
            found = true;
        } else {
            t = t + 1;
        }
    }
    if !found {
        return Err(EditError::ShapeNotFound(request.shape_id.clone()));
    }
    let mut end: usize = t + 1;
    while end < entries.len() && entries[end].depth > entries[t].depth
        invariant
            t < end <= entries@.len(),
            ev == entries_view(entries@),
            subtree_end(ev, t as int, t + 1) == subtree_end(ev, t as int, end as int),
        decreases entries@.len() - end,
    {
        end = end + 1;
    }
    let mut gone: Vec<String> = Vec::new();
    let mut k: usize = t;
    while k < end
        invariant
            t <= k <= end <= entries@.len(),
            ev == entries_view(entries@),
            ids_view(gone@) == ev.subrange(t as int, k as int).map_values(|e: EntryView| e.0),
        decreases end - k,
    {
        assert(ev[k as int].0 == entries@[k as int].id@);
        let ghost before = ids_view(gone@);
        gone.push(entries[k].id.clone());
        assert(ids_view(gone@) =~= before.push(entries@[k as int].id@));
        assert(ev.subrange(t as int, k + 1).map_values(|e: EntryView| e.0) =~= ev.subrange(
            t as int,
            k as int,
        ).map_values(|e: EntryView| e.0).push(ev[k as int].0));
        k = k + 1;
    }
    let parent = match &entries[t].parent_id {
        Some(parent) => Some(parent.clone()),
        None => None,
    };
    Ok((parent, entries[t].index, gone))
}

/// One deletion: the request's page and shape, the shape whose child order loses it (`None`
/// for the page's own order), its position there, and the IDs removed from the sheets and
/// stories maps with it.
#[derive(Clone, Debug, PartialEq, Eq)]
pub struct DeleteStep {
    pub page_id: String,
    pub shape_id: String,
    pub parent_id: Option<String>,
    pub from_index: u32,
    pub removed: Vec<String>,
}

/// A delete batch's plan: its deletions in the order they run, and what the caller is told.
#[derive(Clone, Debug, PartialEq, Eq)]
pub struct DeletePlan {
    pub steps: Vec<DeleteStep>,
    pub receipts: Vec<ShapeReceipt>,
}

/// Where request `request` stands, once every request has been located.
pub open spec fn located(
    pages: Seq<(String, Option<PageRecord>)>,
    sheets: &Sheets,
    request: ShapeDelete,
) -> (Option<Seq<char>>, int, Seq<Seq<char>>) {
    match locate_delete(pages, sheets, request) {
        Ok(place) => place,
        Err(_) => (None, 0, Seq::empty()),
    }
}

pub open spec fn request_froms(pages: Seq<(String, Option<PageRecord>)>, sheets: &Sheets, deletes: Seq<ShapeDelete>) -> Seq<int> {
    deletes.map_values(|d: ShapeDelete| located(pages, sheets, d).1)
}

pub open spec fn request_subtrees(pages: Seq<(String, Option<PageRecord>)>, sheets: &Sheets, deletes: Seq<ShapeDelete>) -> Seq<Seq<Seq<char>>> {
    deletes.map_values(|d: ShapeDelete| located(pages, sheets, d).2)
}

pub open spec fn request_shapes(deletes: Seq<ShapeDelete>) -> Seq<Seq<char>> {
    deletes.map_values(|d: ShapeDelete| d.shape_id@)
}

pub open spec fn step_view(step: DeleteStep) -> (Seq<char>, Seq<char>, Option<Seq<char>>, int, Seq<Seq<char>>) {
    (step.page_id@, step.shape_id@, opt_text_view(step.parent_id), step.from_index as int, ids_view(step.removed@))
}

pub open spec fn receipt_view(receipt: ShapeReceipt) -> (Seq<char>, Seq<char>, Option<u32>, Option<u32>) {
    (receipt.page_id@, receipt.shape_id@, receipt.from_index, receipt.to_index)
}

/// The deletion of request `j`, as plain values.
pub open spec fn planned_step(
    pages: Seq<(String, Option<PageRecord>)>,
    sheets: &Sheets,
    deletes: Seq<ShapeDelete>,
    j: int,
) -> (Seq<char>, Seq<char>, Option<Seq<char>>, int, Seq<Seq<char>>) {
    let place = located(pages, sheets, deletes[j]);
    (deletes[j].page_id@, deletes[j].shape_id@, place.0, place.1, place.2)
}

/// The receipt of request `j`'s deletion.
pub open spec fn planned_receipt(
    pages: Seq<(String, Option<PageRecord>)>,
    sheets: &Sheets,
    deletes: Seq<ShapeDelete>,
    j: int,
) -> (Seq<char>, Seq<char>, Option<u32>, Option<u32>) {
    (deletes[j].page_id@, deletes[j].shape_id@, Some(located(pages, sheets, deletes[j]).1 as u32), None)
}

pub open spec fn usize_ints(v: Seq<usize>) -> Seq<int> {
    v.map_values(|x: usize| x as int)
}

/// The order the deletions of a located batch run in.
pub open spec fn batch_order(pages: Seq<(String, Option<PageRecord>)>, sheets: &Sheets, deletes: Seq<ShapeDelete>) -> Seq<int> {
    deletion_order(
        Seq::new(deletes.len(), |j: int| j),
        request_froms(pages, sheets, deletes),
        request_subtrees(pages, sheets, deletes),
        request_shapes(deletes),
        deletes.len(),
    )
}

/// The first request for the same shape as request `j`.
fn first_request_of(deletes: &[ShapeDelete], j: usize) -> (result: usize)
    requires
        j < deletes@.len(),
    ensures
        result as int == first_request(request_shapes(deletes@), deletes@[j as int].shape_id@),
        result <= j,
{
    let ghost ids = request_shapes(deletes@);
    let mut k: usize = 0;
    while k < j && !str_eq(deletes[k].shape_id.as_str(), deletes[j].shape_id.as_str())
        invariant
            k <= j < deletes@.len(),
            ids == request_shapes(deletes@),
            forall|i: int| 0 <= i < k ==> ids[i] != deletes@[j as int].shape_id@,
        decreases j - k,
    {
        k = k + 1;
    }
    proof {
        let id = deletes@[j as int].shape_id@;
        assert(ids[k as int] == id);
        let c = choose|c: int| 0 <= c < ids.len() && ids[c] == id && forall|i: int| 0 <= i < c ==> ids[i] != id;
        assert(0 <= (k as int) < ids.len() && ids[k as int] == id && forall|i: int| 0 <= i < k ==> ids[i] != id);
        if c < k as int {
            assert(ids[c] != id);
        } else if c > k as int {
            assert(ids[k as int] != id);
        }
    }
    k
}

pub type Place = (Option<String>, u32, Vec<String>);

/// `places` holds where each request stands.
pub open spec fn places_match(
    places: Seq<Place>,
    pages: Seq<(String, Option<PageRecord>)>,
    sheets: &Sheets,
    deletes: Seq<ShapeDelete>,
) -> bool {
    &&& places.len() == deletes.len()
    &&& forall|i: int| 0 <= i < places.len() ==> {
        let place = located(pages, sheets, deletes[i]);
        &&& opt_text_view((#[trigger] places[i]).0) == place.0
        &&& places[i].1 as int == place.1
        &&& ids_view(places[i].2@) == place.2
    }
}

/// Locates every request, failing on the first that cannot be located.
fn locate_all(pages: &Vec<(String, Option<PageRecord>)>, sheets: &Sheets, deletes: &[ShapeDelete]) -> (result:
    EditResult<Vec<Place>>)
    requires
        delete_pages_wf(pages@),
        sheets.wf(),
    ensures
        match first_unlocated(pages@, sheets, deletes@, 0) {
            Some(fault) => result matches Err(error) && delete_fault_error(error, fault),
            None => result matches Ok(places) && places_match(places@, pages@, sheets, deletes@),
        },
{
    let n = deletes.len();
    let mut places: Vec<Place> = Vec::new();
    let mut k: usize = 0;
    while k < n
        invariant
            delete_pages_wf(pages@),
            sheets.wf(),
            k <= n == deletes@.len(),
            places@.len() == k,
            first_unlocated(pages@, sheets, deletes@, 0) == first_unlocated(pages@, sheets, deletes@, k as int),
            forall|i: int| 0 <= i < k ==> {
                let place = located(pages@, sheets, deletes@[i]);
                &&& opt_text_view((#[trigger] places@[i]).0) == place.0
                &&& places@[i].1 as int == place.1
                &&& ids_view(places@[i].2@) == place.2
            },
        decreases n - k,
    {
        let place = locate_request(pages, sheets, &deletes[k])?;
        places.push(place);
        k = k + 1;
    }
    Ok(places)
}

/// Fails on the first refusal.
fn check_refusals(refusals: &[Option<String>]) -> (result: EditResult<()>)
    ensures
        match first_refusal(refusals@, 0) {
            Some(reason) => result matches Err(EditError::InvalidState(m)) && m@ == reason,
            None => result is Ok,
        },
{
    let mut r: usize = 0;
    while r < refusals.len()
        invariant
            r <= refusals@.len(),
            first_refusal(refusals@, 0) == first_refusal(refusals@, r as int),
        decreases refusals@.len() - r,
    {
        if let Some(reason) = &refusals[r] {
            return Err(EditError::InvalidState(reason.clone()));
        }
        r = r + 1;
    }
    Ok(())
}

/// The remaining request whose shape stands furthest along its list.
fn pick_furthest(remaining: &Vec<usize>, places: &Vec<Place>, froms: Ghost<Seq<int>>) -> (result: usize)
    requires
        remaining@.len() > 0,
        forall|t: int| 0 <= t < remaining@.len() ==> #[trigger] remaining@[t] < places@.len(),
        froms@.len() == places@.len(),
        forall|i: int| 0 <= i < places@.len() ==> froms@[i] == (#[trigger] places@[i]).1 as int,
    ensures
        result < remaining@.len(),
        result as int == furthest(usize_ints(remaining@), froms@, remaining@.len() as int),
{
    let ghost rem = usize_ints(remaining@);
    let mut p: usize = 0;
    let mut c: usize = 1;
    while c < remaining.len()
        invariant
            1 <= c <= remaining@.len(),
            p < c,
            rem == usize_ints(remaining@),
            forall|t: int| 0 <= t < remaining@.len() ==> #[trigger] remaining@[t] < places@.len(),
            froms@.len() == places@.len(),
            forall|i: int| 0 <= i < places@.len() ==> froms@[i] == (#[trigger] places@[i]).1 as int,
            p as int == furthest(rem, froms@, c as int),
        decreases remaining@.len() - c,
    {
        assert(froms@[rem[c as int]] == places@[remaining@[c as int] as int].1 as int);
        assert(froms@[rem[p as int]] == places@[remaining@[p as int] as int].1 as int);
        if places[remaining[c]].1 > places[remaining[p]].1 {
            p = c;
        }
        c = c + 1;
    }
    p
}

/// `remaining` without its `p`-th entry.
fn without(remaining: &Vec<usize>, p: usize, n: usize) -> (result: Vec<usize>)
    requires
        p < remaining@.len(),
        forall|t: int| 0 <= t < remaining@.len() ==> #[trigger] remaining@[t] < n,
    ensures
        usize_ints(result@) == usize_ints(remaining@).remove(p as int),
        result@.len() == remaining@.len() - 1,
        forall|u: int| 0 <= u < result@.len() ==> #[trigger] result@[u] < n,
{
    let ghost rem = usize_ints(remaining@);
    let mut rest: Vec<usize> = Vec::new();
    let mut t: usize = 0;
    while t < remaining.len()
        invariant
            t <= remaining@.len(),
            p < remaining@.len(),
            rem == usize_ints(remaining@),
            usize_ints(rest@) == rem.remove(p as int).take(if t <= p { t as int } else { t - 1 }),
            rest@.len() == (if t <= p { t as int } else { t - 1 }),
            forall|v: int| 0 <= v < remaining@.len() ==> #[trigger] remaining@[v] < n,
            forall|u: int| 0 <= u < rest@.len() ==> #[trigger] rest@[u] < n,
        decreases remaining@.len() - t,
    {
        if t != p {
            let ghost before = usize_ints(rest@);
            rest.push(remaining[t]);
            assert(usize_ints(rest@) =~= before.push(remaining@[t as int] as int));
        }
        t = t + 1;
        assert(usize_ints(rest@) =~= rem.remove(p as int).take(if t <= p { t as int } else { t - 1 }));
    }
    assert(usize_ints(rest@) =~= rem.remove(p as int));
    rest
}

/// The entries of `rest` whose shape is not among `gone`.
fn keep_unremoved(rest: &Vec<usize>, gone: &Vec<String>, deletes: &[ShapeDelete]) -> (result: Vec<usize>)
    requires
        forall|w: int| 0 <= w < rest@.len() ==> #[trigger] rest@[w] < deletes@.len(),
    ensures
        usize_ints(result@) == kept_requests(usize_ints(rest@), ids_view(gone@), request_shapes(deletes@), rest@.len() as int),
        result@.len() <= rest@.len(),
        forall|w: int| 0 <= w < result@.len() ==> #[trigger] result@[w] < deletes@.len(),
{
    let ghost rv = usize_ints(rest@);
    let ghost shape_ids = request_shapes(deletes@);
    let mut kept: Vec<usize> = Vec::new();
    let mut u: usize = 0;
    while u < rest.len()
        invariant
            u <= rest@.len(),
            rv == usize_ints(rest@),
            shape_ids == request_shapes(deletes@),
            usize_ints(kept@) == kept_requests(rv, ids_view(gone@), shape_ids, u as int),
            kept@.len() <= u,
            forall|w: int| 0 <= w < kept@.len() ==> #[trigger] kept@[w] < deletes@.len(),
            forall|w: int| 0 <= w < rest@.len() ==> #[trigger] rest@[w] < deletes@.len(),
        decreases rest@.len() - u,
    {
        let x = rest[u];
        assert(shape_ids[x as int] == deletes@[x as int].shape_id@);
        if !contains_str(gone, deletes[x].shape_id.as_str()) {
            let ghost before = usize_ints(kept@);
            kept.push(x);
            assert(usize_ints(kept@) =~= before.push(x as int));
        }
        u = u + 1;
    }
    kept
}

/// The order the located requests' deletions run in.
fn run_order(
    pages: Ghost<Seq<(String, Option<PageRecord>)>>,
    sheets: &Sheets,
    deletes: &[ShapeDelete],
    places: &Vec<Place>,
) -> (result: Vec<usize>)
    requires
        places_match(places@, pages@, sheets, deletes@),
    ensures
        usize_ints(result@) == batch_order(pages@, sheets, deletes@),
        forall|t: int| 0 <= t < result@.len() ==> #[trigger] result@[t] < deletes@.len(),
{
    let n = deletes.len();
    let ghost froms = request_froms(pages@, sheets, deletes@);
    let ghost subtrees = request_subtrees(pages@, sheets, deletes@);
    let ghost shape_ids = request_shapes(deletes@);
    let ghost full = batch_order(pages@, sheets, deletes@);
    let mut order: Vec<usize> = Vec::new();
    let mut remaining: Vec<usize> = Vec::new();
    let mut i: usize = 0;
    while i < n
        invariant
            i <= n,
            remaining@.len() == i,
            forall|t: int| 0 <= t < i ==> #[trigger] remaining@[t] == t,
        decreases n - i,
    {
        remaining.push(i);
        i = i + 1;
    }
    assert(usize_ints(remaining@) =~= Seq::new(n as nat, |j: int| j));
    assert(usize_ints(order@) =~= Seq::<int>::empty());
    assert forall|i: int| 0 <= i < places@.len() implies froms[i] == (#[trigger] places@[i]).1 as int by {
    }
    while remaining.len() > 0
        invariant
            n == deletes@.len(),
            places_match(places@, pages@, sheets, deletes@),
            froms == request_froms(pages@, sheets, deletes@),
            subtrees == request_subtrees(pages@, sheets, deletes@),
            shape_ids == request_shapes(deletes@),
            forall|i: int| 0 <= i < places@.len() ==> froms[i] == (#[trigger] places@[i]).1 as int,
            order@.len() <= n,
            remaining@.len() <= n - order@.len(),
            forall|t: int| 0 <= t < remaining@.len() ==> #[trigger] remaining@[t] < n,
            forall|t: int| 0 <= t < order@.len() ==> #[trigger] order@[t] < n,
            full == usize_ints(order@) + deletion_order(
                usize_ints(remaining@),
                froms,
                subtrees,
                shape_ids,
                (n - order@.len()) as nat,
            ),
        decreases remaining@.len(),
    {
        let p = pick_furthest(&remaining, places, Ghost(froms));
        let j = remaining[p];
        let rest = without(&remaining, p, n);
        assert(ids_view(places@[j as int].2@) == subtrees[j as int]);
        let kept = keep_unremoved(&rest, &places[j].2, deletes);
        let ghost before_order = usize_ints(order@);
        order.push(j);
        assert(usize_ints(order@) =~= before_order.push(j as int));
        assert(deletion_order(usize_ints(remaining@), froms, subtrees, shape_ids, (n - before_order.len()) as nat)
            == seq![j as int] + deletion_order(usize_ints(kept@), froms, subtrees, shape_ids, (n - order@.len()) as nat));
        remaining = kept;
    }
    order
}

/// Plans a batch of shape deletions: `pages` and `sheets` are the document's pages and sheets
/// maps, `deletes` the requests and `refusals` the lock policy's verdict on each (`Some` with
/// its reason where it refuses). Every requested shape must stand in its page's tree, else the
/// batch fails on the first that does not; then the first refusal refuses the whole batch.
/// Deletions run furthest-along-its-list first, each taking its whole subtree; a request whose
/// shape went with an earlier subtree is answered by that deletion. Receipts follow the
/// requests' order.
pub fn plan_deletes(
    pages: &Vec<(String, Option<PageRecord>)>,
    sheets: &Sheets,
    deletes: &[ShapeDelete],
    refusals: &[Option<String>],
) -> (result: EditResult<DeletePlan>)
    requires
        delete_pages_wf(pages@),
        sheets.wf(),
    ensures
        match first_unlocated(pages@, sheets, deletes@, 0) {
            Some(fault) => result matches Err(error) && delete_fault_error(error, fault),
            None => match first_refusal(refusals@, 0) {
                Some(reason) => result matches Err(EditError::InvalidState(m)) && m@ == reason,
                None => result matches Ok(plan) && {
                    &&& plan.steps@.map_values(|s: DeleteStep| step_view(s)) == batch_order(
                        pages@,
                        sheets,
                        deletes@,
                    ).map_values(|j: int| planned_step(pages@, sheets, deletes@, j))
                    &&& plan.receipts@.map_values(|r: ShapeReceipt| receipt_view(r)) == receipt_order(
                        batch_order(pages@, sheets, deletes@),
                        request_shapes(deletes@),
                        deletes@.len() as int,
                    ).map_values(|j: int| planned_receipt(pages@, sheets, deletes@, j))
                },
            },
        },
{
    let places = locate_all(pages, sheets, deletes)?;
    check_refusals(refusals)?;
    let order = run_order(Ghost(pages@), sheets, deletes, &places);
    let steps = build_steps(Ghost(pages@), sheets, deletes, &places, &order);
    let receipts = build_receipts(Ghost(pages@), sheets, deletes, &places, &order);
    Ok(DeletePlan { steps, receipts })
}

fn build_steps(
    pages: Ghost<Seq<(String, Option<PageRecord>)>>,
    sheets: &Sheets,
    deletes: &[ShapeDelete],
    places: &Vec<Place>,
    order: &Vec<usize>,
) -> (result: Vec<DeleteStep>)
    requires
        places_match(places@, pages@, sheets, deletes@),
        forall|t: int| 0 <= t < order@.len() ==> #[trigger] order@[t] < deletes@.len(),
    ensures
        result@.map_values(|st: DeleteStep| step_view(st)) == usize_ints(order@).map_values(
            |j: int| planned_step(pages@, sheets, deletes@, j),
        ),
{
    let ghost full = usize_ints(order@);
    let mut steps: Vec<DeleteStep> = Vec::new();
    let mut s: usize = 0;
    while s < order.len()
        invariant
            s <= order@.len(),
            full == usize_ints(order@),
            places_match(places@, pages@, sheets, deletes@),
            forall|t: int| 0 <= t < order@.len() ==> #[trigger] order@[t] < deletes@.len(),
            steps@.map_values(|st: DeleteStep| step_view(st)) == full.take(s as int).map_values(
                |j: int| planned_step(pages@, sheets, deletes@, j),
            ),
        decreases order@.len() - s,
    {
        let j = order[s];
        let place = &places[j];
        let ghost before = steps@.map_values(|st: DeleteStep| step_view(st));
        steps.push(
            DeleteStep {
                page_id: deletes[j].page_id.clone(),
                shape_id: deletes[j].shape_id.clone(),
                parent_id: match &place.0 {
                    Some(parent) => Some(parent.clone()),
                    None => None,
                },
                from_index: place.1,
                removed: place.2.clone(),
            },
        );
        assert(steps@.map_values(|st: DeleteStep| step_view(st)) =~= before.push(
            planned_step(pages@, sheets, deletes@, j as int),
        ));
        s = s + 1;
        assert(full.take(s as int) =~= full.take(s - 1).push(j as int));
    }
    assert(full.take(order@.len() as int) =~= full);
    steps
}

/// Appends the receipts answered at request position `q`.
fn answer_at(
    pages: Ghost<Seq<(String, Option<PageRecord>)>>,
    sheets: &Sheets,
    deletes: &[ShapeDelete],
    places: &Vec<Place>,
    order: &Vec<usize>,
    q: usize,
    receipts: &mut Vec<ShapeReceipt>,
)
    requires
        places_match(places@, pages@, sheets, deletes@),
        forall|t: int| 0 <= t < order@.len() ==> #[trigger] order@[t] < deletes@.len(),
    ensures
        final(receipts)@.map_values(|rc: ShapeReceipt| receipt_view(rc)) == old(receipts)@.map_values(
            |rc: ShapeReceipt| receipt_view(rc),
        ) + answered_at(usize_ints(order@), request_shapes(deletes@), q as int, order@.len() as int).map_values(
            |j: int| planned_receipt(pages@, sheets, deletes@, j),
        ),
{
    let ghost full = usize_ints(order@);
    let ghost shape_ids = request_shapes(deletes@);
    let ghost at_q = receipts@.map_values(|rc: ShapeReceipt| receipt_view(rc));
    let mut m: usize = 0;
    while m < order.len()
        invariant
            m <= order@.len(),
            full == usize_ints(order@),
            shape_ids == request_shapes(deletes@),
            places_match(places@, pages@, sheets, deletes@),
            forall|t: int| 0 <= t < order@.len() ==> #[trigger] order@[t] < deletes@.len(),
            at_q == old(receipts)@.map_values(|rc: ShapeReceipt| receipt_view(rc)),
            receipts@.map_values(|rc: ShapeReceipt| receipt_view(rc)) == at_q + answered_at(
                full,
                shape_ids,
                q as int,
                m as int,
            ).map_values(|j: int| planned_receipt(pages@, sheets, deletes@, j)),
        decreases order@.len() - m,
    {
        let j = order[m];
        let ghost prior = answered_at(full, shape_ids, q as int, m as int);
        assert(full[m as int] == j as int);
        if first_request_of(deletes, j) == q {
            let ghost before = receipts@.map_values(|rc: ShapeReceipt| receipt_view(rc));
            receipts.push(
                ShapeReceipt {
                    page_id: deletes[j].page_id.clone(),
                    shape_id: deletes[j].shape_id.clone(),
                    from_index: Some(places[j].1),
                    to_index: None,
                },
            );
            assert(receipts@.map_values(|rc: ShapeReceipt| receipt_view(rc)) =~= before.push(
                planned_receipt(pages@, sheets, deletes@, j as int),
            ));
            assert(answered_at(full, shape_ids, q as int, m + 1) == prior.push(j as int));
            assert(prior.push(j as int).map_values(|j: int| planned_receipt(pages@, sheets, deletes@, j))
                =~= prior.map_values(|j: int| planned_receipt(pages@, sheets, deletes@, j)).push(
                planned_receipt(pages@, sheets, deletes@, j as int)));
        } else {
            assert(answered_at(full, shape_ids, q as int, m + 1) == prior);
        }
        m = m + 1;
    }
}

fn build_receipts(
    pages: Ghost<Seq<(String, Option<PageRecord>)>>,
    sheets: &Sheets,
    deletes: &[ShapeDelete],
    places: &Vec<Place>,
    order: &Vec<usize>,
) -> (result: Vec<ShapeReceipt>)
    requires
        places_match(places@, pages@, sheets, deletes@),
        forall|t: int| 0 <= t < order@.len() ==> #[trigger] order@[t] < deletes@.len(),
    ensures
        result@.map_values(|rc: ShapeReceipt| receipt_view(rc)) == receipt_order(
            usize_ints(order@),
            request_shapes(deletes@),
            deletes@.len() as int,
        ).map_values(|j: int| planned_receipt(pages@, sheets, deletes@, j)),
{
    let n = deletes.len();
    let ghost full = usize_ints(order@);
    let ghost shape_ids = request_shapes(deletes@);
    let mut receipts: Vec<ShapeReceipt> = Vec::new();
    let mut q: usize = 0;
    assert(receipts@.map_values(|rc: ShapeReceipt| receipt_view(rc)) =~= Seq::<(Seq<char>, Seq<char>, Option<u32>, Option<u32>)>::empty());
    while q < n
        invariant
            q <= n == deletes@.len(),
            full == usize_ints(order@),
            shape_ids == request_shapes(deletes@),
            places_match(places@, pages@, sheets, deletes@),
            forall|t: int| 0 <= t < order@.len() ==> #[trigger] order@[t] < n,
            receipts@.map_values(|rc: ShapeReceipt| receipt_view(rc)) == receipt_order(
                full,
                shape_ids,
                q as int,
            ).map_values(|j: int| planned_receipt(pages@, sheets, deletes@, j)),
        decreases n - q,
    {
        answer_at(pages, sheets, deletes, places, order, q, &mut receipts);
        assert(receipt_order(full, shape_ids, q + 1) == receipt_order(full, shape_ids, q as int)
            + answered_at(full, shape_ids, q as int, full.len() as int));
        assert(receipt_order(full, shape_ids, q + 1).map_values(|j: int| planned_receipt(pages@, sheets, deletes@, j))
            =~= receipt_order(full, shape_ids, q as int).map_values(|j: int| planned_receipt(pages@, sheets, deletes@, j))
            + answered_at(full, shape_ids, q as int, full.len() as int).map_values(|j: int| planned_receipt(pages@, sheets, deletes@, j)));
        q = q + 1;
    }
    receipts
}

} // verus!
