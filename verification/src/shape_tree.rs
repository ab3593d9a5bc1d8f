//! The shape tree of a page, as a document stores it: each page and each shape holds an
//! ordered list of child shape IDs, and the sheets map holds every shape by ID. Walking a
//! page's tree checks that every entry names a shape, that no shape is reached twice, and that
//! nesting stays within bounds; it yields the shapes in depth-first order.
use vstd::prelude::*;

use crate::args::MAX_SHAPE_NESTING;
use crate::model::{invalid_state, EditError, EditResult};
use crate::orders::{contains_str, item_view, items_view, keys_view};
use crate::text::{owned, push_str, str_eq};

verus! {

/// A field that the checks read as text: absent, a string, or a value of another kind.
#[derive(Clone, Debug, PartialEq, Eq)]
pub enum Field {
    Absent,
    Text(String),
    Other,
}

/// What the checks read of one shape of the sheets map.
#[derive(Clone, Debug, PartialEq, Eq)]
pub struct ShapeRecord {
    /// The shape's child order (`shapes`) when it is a list; an entry that is not a string is
    /// `None`.
    pub children: Option<Vec<Option<String>>>,
    /// The shape's `parentId`.
    pub parent_id: Field,
    /// The shape's `pageId`.
    pub page_id: Field,
    /// The shape's `origin`.
    pub origin: Field,
}

/// One entry of the sheets map: its key, and the shape when the value is a map.
#[derive(Clone, Debug, PartialEq, Eq)]
pub struct SheetEntry {
    pub key: String,
    pub shape: Option<ShapeRecord>,
}

/// The sheets map, its entries in the map's iteration order.
#[derive(Clone, Debug, PartialEq, Eq)]
pub struct Sheets {
    pub entries: Vec<SheetEntry>,
}

/// One shape reached by the walk: its ID, the shape whose child order lists it (`None` for the
/// page's own order), its position in that order, and its depth (1 for the page's shapes).
#[derive(Clone, Debug, PartialEq, Eq)]
pub struct ShapeTreeEntry {
    pub id: String,
    pub parent_id: Option<String>,
    pub index: u32,
    pub depth: usize,
}

/// Why a walk stops.
pub enum TreeFault {
    TooDeep,
    NotAString,
    Repeated,
    Missing(Seq<char>),
}

pub open spec fn field_text(field: Field) -> Option<Seq<char>> {
    match field {
        Field::Text(text) => Some(text@),
        _ => None,
    }
}

impl Sheets {
    /// Keys are distinct, and every child order fits the document's list indices.
    pub open spec fn wf(&self) -> bool {
        &&& forall|i: int, j: int|
            0 <= i < j < self.entries@.len() ==> #[trigger] self.entries@[i].key@
                != #[trigger] self.entries@[j].key@
        &&& forall|i: int|
            0 <= i < self.entries@.len() ==> match (#[trigger] self.entries@[i]).shape {
                Some(shape) => match shape.children {
                    Some(children) => children@.len() <= u32::MAX,
                    None => true,
                },
                None => true,
            }
    }

    pub open spec fn has_key(&self, id: Seq<char>) -> bool {
        exists|i: int| 0 <= i < self.entries@.len() && #[trigger] self.entries@[i].key@ == id
    }

    /// The entry with key `id`, when there is one.
    pub open spec fn entry_of(&self, id: Seq<char>) -> Option<SheetEntry> {
        if self.has_key(id) {
            Some(
                self.entries@[choose|i: int|
                    0 <= i < self.entries@.len() && #[trigger] self.entries@[i].key@ == id],
            )
        } else {
            None
        }
    }

    /// The shape with ID `id`: `None` where no entry has that key or its value is no map.
    pub open spec fn shape_of(&self, id: Seq<char>) -> Option<ShapeRecord> {
        match self.entry_of(id) {
            Some(entry) => entry.shape,
            None => None,
        }
    }

    /// The child order of shape `id`, empty where it has none.
    pub open spec fn kids(&self, id: Seq<char>) -> Seq<Option<Seq<char>>> {
        match self.shape_of(id) {
            Some(shape) => match shape.children {
                Some(children) => items_view(children@),
                None => Seq::empty(),
            },
            None => Seq::empty(),
        }
    }
}

/// A visited list entry: the entry, the parent shape, the position, the depth.
pub type Visit = (Option<Seq<char>>, Option<Seq<char>>, int, int);

/// The entries of `list` from position `k` on, each followed by its own subtree, depth first;
/// a shape's subtree is expanded only where the walk would go on: within the nesting bound,
/// for a string that names a shape.
pub open spec fn visits_from(
    sheets: &Sheets,
    list: Seq<Option<Seq<char>>>,
    k: int,
    parent: Option<Seq<char>>,
    depth: int,
) -> Seq<Visit>
    decreases MAX_SHAPE_NESTING + 1 - depth, list.len() - k,
{
    if k < 0 || k >= list.len() {
        Seq::empty()
    } else {
        seq![(list[k], parent, k, depth)] + (if depth <= MAX_SHAPE_NESTING && list[k] is Some
            && sheets.shape_of(list[k].unwrap()) is Some {
            visits_from(sheets, sheets.kids(list[k].unwrap()), 0, list[k], depth + 1)
        } else {
            Seq::empty()
        }) + visits_from(sheets, list, k + 1, parent, depth)
    }
}

/// The subtree below a visited entry, as [`visits_from`] expands it.
pub open spec fn subtree(sheets: &Sheets, slot: Option<Seq<char>>, depth: int) -> Seq<Visit> {
    if depth <= MAX_SHAPE_NESTING && slot is Some && sheets.shape_of(slot.unwrap()) is Some {
        visits_from(sheets, sheets.kids(slot.unwrap()), 0, slot, depth + 1)
    } else {
        Seq::empty()
    }
}

/// The walk over the visits from the `k`-th on, `seen` holding the shapes reached before:
/// the entries reached, or the first fault met.
pub open spec fn walk(sheets: &Sheets, visits: Seq<Visit>, k: int, seen: Set<Seq<char>>) -> Result<
    Seq<(Seq<char>, Option<Seq<char>>, int, int)>,
    TreeFault,
>
    decreases visits.len() - k,
{
    if k < 0 || k >= visits.len() {
        Ok(Seq::empty())
    } else {
        let (slot, parent, index, depth) = visits[k];
        if depth > MAX_SHAPE_NESTING {
            Err(TreeFault::TooDeep)
        } else if slot is None {
            Err(TreeFault::NotAString)
        } else if seen.contains(slot.unwrap()) {
            Err(TreeFault::Repeated)
        } else if sheets.shape_of(slot.unwrap()) is None {
            Err(TreeFault::Missing(slot.unwrap()))
        } else {
            match walk(sheets, visits, k + 1, seen.insert(slot.unwrap())) {
                Ok(rest) => Ok(seq![(slot.unwrap(), parent, index, depth)] + rest),
                Err(fault) => Err(fault),
            }
        }
    }
}

/// The walk of a page whose own child order is `roots`.
pub open spec fn tree_walk(sheets: &Sheets, roots: Seq<Option<Seq<char>>>) -> Result<
    Seq<(Seq<char>, Option<Seq<char>>, int, int)>,
    TreeFault,
> {
    walk(sheets, visits_from(sheets, roots, 0, None, 1), 0, Set::empty())
}

pub open spec fn entry_view(entry: ShapeTreeEntry) -> (Seq<char>, Option<Seq<char>>, int, int) {
    (entry.id@, item_view(entry.parent_id), entry.index as int, entry.depth as int)
}

pub open spec fn entries_view(entries: Seq<ShapeTreeEntry>) -> Seq<
    (Seq<char>, Option<Seq<char>>, int, int),
> {
    entries.map_values(|entry: ShapeTreeEntry| entry_view(entry))
}

/// The error the walk reports for a fault.
pub open spec fn fault_error(error: EditError, fault: TreeFault) -> bool {
    match fault {
        TreeFault::TooDeep => error matches EditError::InvalidState(message) && message@
            == "shape nesting exceeds maximum depth"@,
        TreeFault::NotAString => error matches EditError::InvalidState(message) && message@
            == "shape order contains non-string"@,
        TreeFault::Repeated => error matches EditError::InvalidState(message) && message@
            == "shape order contains a duplicate or cycle"@,
        TreeFault::Missing(id) => error matches EditError::PageNotFound(key) && key@ == id,
    }
}

proof fn lemma_visits_step(
    sheets: &Sheets,
    list: Seq<Option<Seq<char>>>,
    k: int,
    parent: Option<Seq<char>>,
    depth: int,
)
    requires
        0 <= k < list.len(),
    ensures
        visits_from(sheets, list, k, parent, depth) == seq![(list[k], parent, k, depth)] + subtree(
            sheets,
            list[k],
            depth,
        ) + visits_from(sheets, list, k + 1, parent, depth),
{
}

/// A pending list entry: whose child order holds it (`None` for the page's), its position,
/// its depth.
type Frame = (Option<usize>, u32, usize);

spec fn frame_list(sheets: &Sheets, roots: Seq<Option<Seq<char>>>, owner: Option<usize>) -> Seq<
    Option<Seq<char>>,
> {
    match owner {
        None => roots,
        Some(o) => match sheets.entries@[o as int].shape {
            Some(shape) => match shape.children {
                Some(children) => items_view(children@),
                None => Seq::empty(),
            },
            None => Seq::empty(),
        },
    }
}

spec fn frame_parent(sheets: &Sheets, owner: Option<usize>) -> Option<Seq<char>> {
    match owner {
        None => None,
        Some(o) => Some(sheets.entries@[o as int].key@),
    }
}

spec fn frame_ok(sheets: &Sheets, roots: Seq<Option<Seq<char>>>, frame: Frame) -> bool {
    &&& frame.1 < frame_list(sheets, roots, frame.0).len()
    &&& match frame.0 {
        None => true,
        Some(o) => o < sheets.entries@.len() && sheets.entries@[o as int].shape is Some
            && sheets.entries@[o as int].shape.unwrap().children is Some,
    }
}

spec fn frame_visits(sheets: &Sheets, roots: Seq<Option<Seq<char>>>, frame: Frame) -> Seq<Visit> {
    let list = frame_list(sheets, roots, frame.0);
    seq![(list[frame.1 as int], frame_parent(sheets, frame.0), frame.1 as int, frame.2 as int)]
        + subtree(sheets, list[frame.1 as int], frame.2 as int)
}

/// The visits still ahead for a stack of pending entries, the top (last) first.
spec fn stack_visits(sheets: &Sheets, roots: Seq<Option<Seq<char>>>, stack: Seq<Frame>) -> Seq<
    Visit,
>
    decreases stack.len(),
{
    if stack.len() == 0 {
        Seq::empty()
    } else {
        frame_visits(sheets, roots, stack.last()) + stack_visits(sheets, roots, stack.drop_last())
    }
}

spec fn prepend<E>(prefix: Seq<E>, outcome: Result<Seq<E>, TreeFault>) -> Result<Seq<E>, TreeFault> {
    match outcome {
        Ok(rest) => Ok(prefix + rest),
        Err(fault) => Err(fault),
    }
}

pub open spec fn entry_keys(entries: Seq<SheetEntry>) -> Seq<Seq<char>> {
    entries.map_values(|entry: SheetEntry| entry.key@)
}

proof fn lemma_entry_of(sheets: &Sheets, o: int)
    requires
        sheets.wf(),
        0 <= o < sheets.entries@.len(),
    ensures
        sheets.shape_of(sheets.entries@[o].key@) == sheets.entries@[o].shape,
{
    let id = sheets.entries@[o].key@;
    assert(sheets.has_key(id));
    let i = choose|i: int| 0 <= i < sheets.entries@.len() && #[trigger] sheets.entries@[i].key@ == id;
    if i != o {
        if i < o {
            assert(sheets.entries@[i].key@ != sheets.entries@[o].key@);
        } else {
            assert(sheets.entries@[o].key@ != sheets.entries@[i].key@);
        }
    }
}

proof fn lemma_seen_bound(sheets: &Sheets, seen: Seq<Seq<char>>)
    requires
        seen.no_duplicates(),
        forall|t: int| 0 <= t < seen.len() ==> sheets.has_key(#[trigger] seen[t]),
    ensures
        seen.len() <= sheets.entries@.len(),
{
    let keys = entry_keys(sheets.entries@);
    seen.unique_seq_to_set();
    keys.lemma_cardinality_of_set();
    assert(seen.to_set().subset_of(keys.to_set())) by {
        assert forall|x: Seq<char>| seen.to_set().contains(x) implies keys.to_set().contains(x) by {
            let t = choose|t: int| 0 <= t < seen.len() && seen[t] == x;
            assert(sheets.has_key(seen[t]));
            let i = choose|i: int|
                0 <= i < sheets.entries@.len() && #[trigger] sheets.entries@[i].key@ == x;
            assert(keys[i] == x);
        }
    }
    vstd::set_lib::lemma_len_subset(seen.to_set(), keys.to_set());
}

/// The position of the shape with ID `id` in the sheets map, when there is one whose value is
/// a map.
pub(crate) fn find_shape(sheets: &Sheets, id: &str) -> (result: Option<usize>)
    requires
        sheets.wf(),
    ensures
        match result {
            Some(o) => o < sheets.entries@.len() && sheets.entries@[o as int].key@ == id@
                && sheets.entries@[o as int].shape is Some && sheets.shape_of(id@)
                == sheets.entries@[o as int].shape,
            None => sheets.shape_of(id@) is None,
        },
{
    let mut i: usize = 0;
    while i < sheets.entries.len()
        invariant
            sheets.wf(),
            i <= sheets.entries@.len(),
            forall|t: int| 0 <= t < i ==> sheets.entries@[t].key@ != id@,
        decreases sheets.entries.len() - i,
    {
        if str_eq(sheets.entries[i].key.as_str(), id) {
            proof {
                lemma_entry_of(sheets, i as int);
            }
            if sheets.entries[i].shape.is_some() {
                return Some(i);
            }
            return None;
        }
        i = i + 1;
    }
    assert(!sheets.has_key(id@));
    None
}

proof fn lemma_stack_push(
    sheets: &Sheets,
    roots: Seq<Option<Seq<char>>>,
    stack: Seq<Frame>,
    frame: Frame,
)
    ensures
        stack_visits(sheets, roots, stack.push(frame)) == frame_visits(sheets, roots, frame)
            + stack_visits(sheets, roots, stack),
{
    assert(stack.push(frame).drop_last() == stack);
}

/// The shapes of a page's tree in depth-first order, each with its parent, its position in
/// its parent's (or the page's) child order, and its depth; or the first fault the walk meets:
/// an entry nested deeper than [`MAX_SHAPE_NESTING`], an entry that is not a string, a shape
/// reached a second time, or an ID that names no shape.
pub fn shape_tree_entries(sheets: &Sheets, roots: &Vec<Option<String>>) -> (result: EditResult<
    Vec<ShapeTreeEntry>,
>)
    requires
        sheets.wf(),
        roots@.len() <= u32::MAX,
    ensures
        match tree_walk(sheets, items_view(roots@)) {
            Ok(entries) => result matches Ok(found) && entries_view(found@) == entries,
            Err(fault) => result matches Err(error) && fault_error(error, fault),
        },
{
    let ghost rv = items_view(roots@);
    let ghost all = visits_from(sheets, rv, 0, None, 1);
    let mut stack: Vec<Frame> = Vec::new();
    let mut k: usize = roots.len();
    while k > 0
        invariant
            k <= roots@.len(),
            roots@.len() <= u32::MAX,
            rv == items_view(roots@),
            stack_visits(sheets, rv, stack@) == visits_from(sheets, rv, k as int, None, 1),
            forall|t: int|
                0 <= t < stack@.len() ==> frame_ok(sheets, rv, #[trigger] stack@[t]) && 1
                    <= stack@[t].2 <= MAX_SHAPE_NESTING + 1,
        decreases k,
    {
        k = k - 1;
        proof {
            lemma_visits_step(sheets, rv, k as int, None, 1);
            lemma_stack_push(sheets, rv, stack@, (None, k as u32, 1));
        }
        stack.push((None, k as u32, 1));
    }
    let mut result: Vec<ShapeTreeEntry> = Vec::new();
    let mut seen: Vec<String> = Vec::new();
    let ghost mut done: int = 0;
    proof {
        assert(all.subrange(0, all.len() as int) == all);
        assert(keys_view(seen@).to_set() =~= Set::<Seq<char>>::empty());
        assert(entries_view(result@) =~= Seq::empty());
        match walk(sheets, all, 0, Set::empty()) {
            Ok(rest) => {
                assert(Seq::<(Seq<char>, Option<Seq<char>>, int, int)>::empty() + rest =~= rest);
            },
            Err(_) => {},
        }
    }
    while stack.len() > 0
        invariant
            sheets.wf(),
            roots@.len() <= u32::MAX,
            rv == items_view(roots@),
            all == visits_from(sheets, rv, 0, None, 1),
            0 <= done <= all.len(),
            all.subrange(done, all.len() as int) == stack_visits(sheets, rv, stack@),
            forall|t: int|
                0 <= t < stack@.len() ==> frame_ok(sheets, rv, #[trigger] stack@[t]) && 1
                    <= stack@[t].2 <= MAX_SHAPE_NESTING + 1,
            tree_walk(sheets, rv) == prepend(
                entries_view(result@),
                walk(sheets, all, done, keys_view(seen@).to_set()),
            ),
            keys_view(seen@).no_duplicates(),
            forall|t: int| 0 <= t < seen@.len() ==> sheets.has_key(#[trigger] keys_view(seen@)[t]),
        decreases sheets.entries@.len() - seen@.len(), stack@.len(),
    {
        proof {
            lemma_seen_bound(sheets, keys_view(seen@));
        }
        let ghost old_stack = stack@;
        let frame = match stack.pop() {
            Some(frame) => frame,
            None => {
                proof {
                    assert(false);
                }
                return Ok(result);
            },
        };
        let ghost rest = stack@;
        assert(rest == old_stack.drop_last());
        assert(frame == old_stack.last());
        assert(frame_ok(sheets, rv, old_stack[old_stack.len() - 1]));
        let ghost seen_set = keys_view(seen@).to_set();
        let ghost list = frame_list(sheets, rv, frame.0);
        let ghost parent = frame_parent(sheets, frame.0);
        let (owner, index, depth) = frame;
        proof {
            let ahead = frame_visits(sheets, rv, frame) + stack_visits(sheets, rv, rest);
            assert(all.subrange(done, all.len() as int) == ahead);
            assert(ahead[0] == (list[index as int], parent, index as int, depth as int));
            assert(all[done] == ahead[0]);
            assert(done < all.len());
        }
        if depth > MAX_SHAPE_NESTING {
            return Err(invalid_state("shape nesting exceeds maximum depth"));
        }
        let slot: &Option<String> = match owner {
            None => &roots[index as usize],
            Some(o) => match &sheets.entries[o].shape {
                Some(shape) => match &shape.children {
                    Some(children) => &children[index as usize],
                    None => {
                        proof {
                            assert(false);
                        }
                        return Ok(result);
                    },
                },
                None => {
                    proof {
                        assert(false);
                    }
                    return Ok(result);
                },
            },
        };
        assert(item_view(*slot) == list[index as int]);
        let id: &String = match slot {
            Some(id) => id,
            None => {
                return Err(invalid_state("shape order contains non-string"));
            },
        };
        if contains_str(&seen, id.as_str()) {
            return Err(invalid_state("shape order contains a duplicate or cycle"));
        }
        let found = match find_shape(sheets, id.as_str()) {
            Some(o) => o,
            None => {
                return Err(EditError::PageNotFound(owned(id.as_str())));
            },
        };
        let parent_id = match owner {
            None => None,
            Some(o) => Some(owned(sheets.entries[o].key.as_str())),
        };
        assert(item_view(parent_id) == parent);
        let ghost entries_before = entries_view(result@);
        let ghost seen_before = keys_view(seen@);
        result.push(ShapeTreeEntry { id: owned(id.as_str()), parent_id, index, depth });
        seen.push(owned(id.as_str()));
        proof {
            let e = (id@, parent, index as int, depth as int);
            assert(entries_view(result@) =~= entries_before.push(e));
            assert(keys_view(seen@) =~= seen_before.push(id@));
            seen_before.lemma_push_to_set_commute(id@);
            assert(keys_view(seen@).no_duplicates());
            match walk(sheets, all, done + 1, seen_set.insert(id@)) {
                Ok(tail) => {
                    assert(entries_before.push(e) + tail =~= entries_before + (seq![e] + tail));
                },
                Err(_) => {},
            }
            lemma_seen_bound(sheets, keys_view(seen@));
            let ahead = frame_visits(sheets, rv, frame) + stack_visits(sheets, rv, rest);
            assert(all.subrange(done + 1, all.len() as int) =~= ahead.subrange(1, ahead.len() as int));
            assert(ahead.subrange(1, ahead.len() as int) =~= subtree(sheets, Some(id@), depth as int)
                + stack_visits(sheets, rv, rest));
            done = done + 1;
        }
        let ghost kids = sheets.kids(id@);
        let ghost next_depth = depth + 1;
        match &sheets.entries[found].shape {
            Some(shape) => match &shape.children {
                Some(children) => {
                    assert(kids == items_view(children@));
                    assert(children@.len() <= u32::MAX) by {
                        assert(match sheets.entries@[found as int].shape {
                            Some(shape) => match shape.children {
                                Some(children) => children@.len() <= u32::MAX,
                                None => true,
                            },
                            None => true,
                        });
                    }
                    let mut c: usize = children.len();
                    while c > 0
                        invariant
                            sheets.wf(),
                            c <= children@.len(),
                            children@.len() <= u32::MAX,
                            found < sheets.entries@.len(),
                            sheets.entries@[found as int].shape == Some(*shape),
                            shape.children == Some(*children),
                            sheets.entries@[found as int].key@ == id@,
                            kids == items_view(children@),
                            next_depth == depth + 1,
                            depth <= MAX_SHAPE_NESTING,
                            stack_visits(sheets, rv, stack@) == visits_from(
                                sheets,
                                kids,
                                c as int,
                                Some(id@),
                                next_depth as int,
                            ) + stack_visits(sheets, rv, rest),
                            forall|t: int|
                                0 <= t < stack@.len() ==> frame_ok(sheets, rv, #[trigger] stack@[t])
                                    && 1 <= stack@[t].2 <= MAX_SHAPE_NESTING + 1,
                        decreases c,
                    {
                        c = c - 1;
                        proof {
                            lemma_visits_step(sheets, kids, c as int, Some(id@), next_depth as int);
                            lemma_stack_push(sheets, rv, stack@, (Some(found), c as u32, (depth + 1) as usize));
                            let a = seq![(kids[c as int], Some(id@), c as int, next_depth as int)];
                            let b = subtree(sheets, kids[c as int], next_depth as int);
                            let x = visits_from(sheets, kids, c + 1, Some(id@), next_depth as int);
                            assert(a + b + (x + stack_visits(sheets, rv, rest)) =~= a + b + x
                                + stack_visits(sheets, rv, rest));
                        }
                        stack.push((Some(found), c as u32, depth + 1));
                    }
                },
                None => {
                    assert(kids =~= Seq::empty());
                },
            },
            None => {
                proof {
                    assert(false);
                }
            },
        }
    }
    proof {
        assert(stack_visits(sheets, rv, stack@) == Seq::<Visit>::empty());
        assert(all.subrange(done, all.len() as int).len() == 0);
        assert(entries_view(result@) + Seq::empty() =~= entries_view(result@));
    }
    Ok(result)
}

/// What the page checks read of a page: its child order (`shapes`) when it is a list, and its
/// `id`.
#[derive(Clone, Debug, PartialEq, Eq)]
pub struct PageRecord {
    pub shapes: Option<Vec<Option<String>>>,
    pub id: Field,
}

/// What is wrong with how a reached shape records where it stands, if anything: its
/// `parentId` must be the shape whose order lists it (absent for the page's own shapes), and
/// its `pageId`, where present, the page.
pub open spec fn link_fault(shape: ShapeRecord, parent: Option<Seq<char>>, page_id: Seq<char>) -> Option<
    Seq<char>,
> {
    if shape.parent_id is Other {
        Some("shape parentId is not a string"@)
    } else if field_text(shape.parent_id) != parent {
        Some("shape parentId does not match shape order"@)
    } else if !(shape.page_id is Absent) && field_text(shape.page_id) != Some(page_id) {
        Some("shape pageId does not match page shape order"@)
    } else {
        None
    }
}

/// The first fault among the reached shapes from the `k`-th on.
pub open spec fn first_link_fault(
    sheets: &Sheets,
    entries: Seq<(Seq<char>, Option<Seq<char>>, int, int)>,
    k: int,
    page_id: Seq<char>,
) -> Option<Seq<char>>
    decreases entries.len() - k,
{
    if k < 0 || k >= entries.len() {
        None
    } else {
        match link_fault(sheets.shape_of(entries[k].0).unwrap(), entries[k].1, page_id) {
            Some(message) => Some(message),
            None => first_link_fault(sheets, entries, k + 1, page_id),
        }
    }
}

/// The IDs of the shapes reachable from a page, in depth-first order, after checking the page
/// and its tree: the page must have a child order and an `id`, the walk must succeed, and every
/// reached shape must record its parent and page as the tree places it.
pub fn reachable_shape_ids(sheets: &Sheets, page: &PageRecord) -> (result: EditResult<Vec<String>>)
    requires
        sheets.wf(),
        page.shapes matches Some(shapes) ==> shapes@.len() <= u32::MAX,
    ensures
        match (page.shapes, field_text(page.id)) {
            (None, _) => result matches Err(EditError::InvalidState(message)) && message@
                == "missing shapes array"@,
            (Some(_), None) => result matches Err(EditError::InvalidState(message)) && message@
                == "missing id"@,
            (Some(shapes), Some(page_id)) => match tree_walk(sheets, items_view(shapes@)) {
                Err(fault) => result matches Err(error) && fault_error(error, fault),
                Ok(entries) => match first_link_fault(sheets, entries, 0, page_id) {
                    Some(message) => result matches Err(EditError::InvalidState(m)) && m@
                        == message,
                    None => result matches Ok(ids) && keys_view(ids@) == entries.map_values(
                        |entry: (Seq<char>, Option<Seq<char>>, int, int)| entry.0,
                    ),
                },
            },
        },
{
    let shapes = match &page.shapes {
        Some(shapes) => shapes,
        None => {
            return Err(invalid_state("missing shapes array"));
        },
    };
    let page_id = match &page.id {
        Field::Text(id) => id,
        _ => {
            return Err(invalid_state("missing id"));
        },
    };
    let entries = shape_tree_entries(sheets, shapes)?;
    let ghost es = entries_view(entries@);
    assert(tree_walk(sheets, items_view(shapes@)) == Ok::<_, TreeFault>(es));
    proof {
        lemma_walk_props(
            sheets,
            visits_from(sheets, items_view(shapes@), 0, None, 1),
            0,
            Set::empty(),
        );
    }
    let mut ids: Vec<String> = Vec::new();
    let mut k: usize = 0;
    while k < entries.len()
        invariant
            sheets.wf(),
            es == entries_view(entries@),
            page.shapes == Some(*shapes),
            field_text(page.id) == Some(page_id@),
            tree_walk(sheets, items_view(shapes@)) == Ok::<_, TreeFault>(es),
            forall|i: int| 0 <= i < es.len() ==> sheets.shape_of((#[trigger] es[i]).0) is Some,
            k <= entries@.len(),
            first_link_fault(sheets, es, 0, page_id@) == first_link_fault(sheets, es, k as int, page_id@),
            keys_view(ids@) == es.take(k as int).map_values(
                |entry: (Seq<char>, Option<Seq<char>>, int, int)| entry.0,
            ),
        decreases entries.len() - k,
    {
        let entry = &entries[k];
        assert(es[k as int] == entry_view(*entry));
        assert(sheets.shape_of(es[k as int].0) is Some);
        let o = match find_shape(sheets, entry.id.as_str()) {
            Some(o) => o,
            None => {
                proof {
                    assert(false);
                }
                return Ok(ids);
            },
        };
        let shape = match &sheets.entries[o].shape {
            Some(shape) => shape,
            None => {
                proof {
                    assert(false);
                }
                return Ok(ids);
            },
        };
        assert(sheets.shape_of(es[k as int].0) == Some(*shape));
        let parent_matches = match (&shape.parent_id, &entry.parent_id) {
            (Field::Other, _) => {
                assert(first_link_fault(sheets, es, k as int, page_id@) == Some(
                    "shape parentId is not a string"@,
                ));
                return Err(invalid_state("shape parentId is not a string"));
            },
            (Field::Text(stored), Some(parent)) => str_eq(stored.as_str(), parent.as_str()),
            (Field::Text(_), None) => false,
            (Field::Absent, None) => true,
            (Field::Absent, Some(_)) => false,
        };
        if !parent_matches {
            assert(field_text(shape.parent_id) != es[k as int].1);
            assert(first_link_fault(sheets, es, k as int, page_id@) == Some(
                "shape parentId does not match shape order"@,
            ));
            return Err(invalid_state("shape parentId does not match shape order"));
        }
        let page_matches = match &shape.page_id {
            Field::Absent => true,
            Field::Text(stored) => str_eq(stored.as_str(), page_id.as_str()),
            Field::Other => false,
        };
        if !page_matches {
            return Err(invalid_state("shape pageId does not match page shape order"));
        }
        assert(link_fault(*shape, es[k as int].1, page_id@) is None);
        let ghost before = keys_view(ids@);
        ids.push(owned(entry.id.as_str()));
        proof {
            assert(keys_view(ids@) =~= before.push(es[k as int].0));
            assert(es.take(k + 1).map_values(
                |entry: (Seq<char>, Option<Seq<char>>, int, int)| entry.0,
            ) =~= es.take(k as int).map_values(
                |entry: (Seq<char>, Option<Seq<char>>, int, int)| entry.0,
            ).push(es[k as int].0));
        }
        k = k + 1;
    }
    assert(es.take(k as int) == es);
    Ok(ids)
}

/// The shape that `id` records as its parent, where `id` names a shape with a string
/// `parentId`.
pub open spec fn parent_step(sheets: &Sheets, id: Seq<char>) -> Option<Seq<char>> {
    match sheets.shape_of(id) {
        Some(shape) => field_text(shape.parent_id),
        None => None,
    }
}

/// The `k`-th shape up the parent chain from `start` (`start` itself for 0), while the chain
/// lasts.
pub open spec fn ancestor(sheets: &Sheets, start: Seq<char>, k: nat) -> Option<Seq<char>>
    decreases k,
{
    if k == 0 {
        Some(start)
    } else {
        match ancestor(sheets, start, (k - 1) as nat) {
            Some(id) => parent_step(sheets, id),
            None => None,
        }
    }
}

/// Why a parent chain is refused.
pub enum ChainFault {
    Cyclic,
    TooDeep,
}

/// A chain is cyclic when a shape comes back within the nesting bound, and too deep when it
/// holds more than [`MAX_SHAPE_NESTING`] distinct shapes.
pub open spec fn chain_fault(sheets: &Sheets, start: Seq<char>) -> Option<ChainFault> {
    if exists|i: nat, j: nat|
        #![trigger ancestor(sheets, start, i), ancestor(sheets, start, j)]
        i < j <= MAX_SHAPE_NESTING && ancestor(sheets, start, j) is Some && ancestor(sheets, start, i)
            == ancestor(sheets, start, j) {
        Some(ChainFault::Cyclic)
    } else if ancestor(sheets, start, MAX_SHAPE_NESTING as nat) is Some {
        Some(ChainFault::TooDeep)
    } else {
        None
    }
}

/// The first shape, from the `k`-th entry on in iteration order, whose parent chain is
/// refused.
pub open spec fn first_chain_fault(sheets: &Sheets, k: int) -> Option<(Seq<char>, ChainFault)>
    decreases sheets.entries@.len() - k,
{
    if k < 0 || k >= sheets.entries@.len() {
        None
    } else {
        match chain_fault(sheets, sheets.entries@[k].key@) {
            Some(fault) => Some((sheets.entries@[k].key@, fault)),
            None => first_chain_fault(sheets, k + 1),
        }
    }
}

pub open spec fn cyclic_message(shape_id: Seq<char>) -> Seq<char> {
    "shape "@ + shape_id + " has a cyclic parent chain"@
}

proof fn lemma_ancestor_gone(sheets: &Sheets, start: Seq<char>, k: nat, j: nat)
    requires
        k <= j,
        ancestor(sheets, start, k) is None,
    ensures
        ancestor(sheets, start, j) is None,
    decreases j - k,
{
    if k < j {
        lemma_ancestor_gone(sheets, start, k, (j - 1) as nat);
    }
}

/// Checks one shape's parent chain.
fn check_chain(sheets: &Sheets, start: &str) -> (result: Option<ChainFault>)
    requires
        sheets.wf(),
    ensures
        result == chain_fault(sheets, start@),
{
    let mut current: String = owned(start);
    let mut seen: Vec<String> = Vec::new();
    loop
        invariant
            sheets.wf(),
            seen@.len() <= MAX_SHAPE_NESTING,
            forall|k: nat| k < seen@.len() ==> ancestor(sheets, start@, k) == Some(
                #[trigger] keys_view(seen@)[k as int],
            ),
            keys_view(seen@).no_duplicates(),
            ancestor(sheets, start@, seen@.len() as nat) == Some(current@),
        decreases MAX_SHAPE_NESTING - seen@.len(),
    {
        let t = seen.len();
        if contains_str(&seen, current.as_str()) {
            proof {
                let i = choose|i: int| 0 <= i < t && keys_view(seen@)[i] == current@;
                assert(ancestor(sheets, start@, i as nat) == Some(keys_view(seen@)[i]));
                assert(ancestor(sheets, start@, i as nat) == ancestor(sheets, start@, t as nat));
            }
            return Some(ChainFault::Cyclic);
        }
        let ghost before = keys_view(seen@);
        seen.push(owned(current.as_str()));
        assert(keys_view(seen@) =~= before.push(current@));
        proof {
            assert forall|i: nat, j: nat|
                #![trigger ancestor(sheets, start@, i), ancestor(sheets, start@, j)]
                i < j <= t && ancestor(sheets, start@, j) is Some implies ancestor(sheets, start@, i)
                    != ancestor(sheets, start@, j) by {
                assert(ancestor(sheets, start@, i) == Some(keys_view(seen@)[i as int]));
                assert(ancestor(sheets, start@, j) == Some(keys_view(seen@)[j as int]));
            }
        }
        if seen.len() > MAX_SHAPE_NESTING {
            return Some(ChainFault::TooDeep);
        }
        let next = match find_shape(sheets, current.as_str()) {
            Some(o) => match &sheets.entries[o].shape {
                Some(shape) => match &shape.parent_id {
                    Field::Text(parent) => Some(owned(parent.as_str())),
                    _ => None,
                },
                None => None,
            },
            None => None,
        };
        assert(item_view(next) == parent_step(sheets, current@));
        match next {
            Some(parent) => {
                current = parent;
            },
            None => {
                proof {
                    assert(ancestor(sheets, start@, (t + 1) as nat) is None);
                    assert forall|i: nat, j: nat|
                        #![trigger ancestor(sheets, start@, i), ancestor(sheets, start@, j)]
                        i < j <= MAX_SHAPE_NESTING && ancestor(sheets, start@, j) is Some
                            implies ancestor(sheets, start@, i) != ancestor(sheets, start@, j) by {
                        if j > t {
                            lemma_ancestor_gone(sheets, start@, (t + 1) as nat, j);
                        }
                    }
                    lemma_ancestor_gone(
                        sheets,
                        start@,
                        (t + 1) as nat,
                        MAX_SHAPE_NESTING as nat,
                    );
                }
                return None;
            },
        }
    }
}

/// Refuses a sheets map where some shape's parent chain comes back to a shape it passed, or
/// runs deeper than [`MAX_SHAPE_NESTING`]; the first such shape in iteration order is named.
pub fn validate_acyclic_parents(sheets: &Sheets) -> (result: EditResult<()>)
    requires
        sheets.wf(),
    ensures
        match first_chain_fault(sheets, 0) {
            None => result is Ok,
            Some((shape_id, ChainFault::Cyclic)) => result matches Err(EditError::InvalidState(m))
                && m@ == cyclic_message(shape_id),
            Some((_, ChainFault::TooDeep)) => result matches Err(EditError::InvalidState(m)) && m@
                == "shape nesting exceeds maximum depth"@,
        },
{
    let mut k: usize = 0;
    while k < sheets.entries.len()
        invariant
            sheets.wf(),
            k <= sheets.entries@.len(),
            first_chain_fault(sheets, 0) == first_chain_fault(sheets, k as int),
        decreases sheets.entries.len() - k,
    {
        let key = &sheets.entries[k].key;
        match check_chain(sheets, key.as_str()) {
            Some(ChainFault::Cyclic) => {
                let mut message = owned("shape ");
                push_str(&mut message, key.as_str());
                push_str(&mut message, " has a cyclic parent chain");
                return Err(EditError::InvalidState(message));
            },
            Some(ChainFault::TooDeep) => {
                return Err(invalid_state("shape nesting exceeds maximum depth"));
            },
            None => {},
        }
        k = k + 1;
    }
    Ok(())
}

/// What is wrong with one entry of the stories map, if anything: its value must be a string
/// and its key must name an entry of the sheets map.
pub open spec fn story_fault(sheets: &Sheets, key: Seq<char>, is_text: bool) -> Option<Seq<char>> {
    if !is_text {
        Some("shape text is not a string"@)
    } else if !sheets.has_key(key) {
        Some("shape text references a missing shape"@)
    } else {
        None
    }
}

/// The first fault among the stories from the `k`-th on, in iteration order.
pub open spec fn first_story_fault(sheets: &Sheets, stories: Seq<(String, bool)>, k: int) -> Option<
    Seq<char>,
>
    decreases stories.len() - k,
{
    if k < 0 || k >= stories.len() {
        None
    } else {
        match story_fault(sheets, stories[k].0@, stories[k].1) {
            Some(message) => Some(message),
            None => first_story_fault(sheets, stories, k + 1),
        }
    }
}

/// Checks the stories map, given as its entries in iteration order, each with whether its value
/// is a string; a document without a stories map passes.
pub fn validate_story_records(stories: Option<&Vec<(String, bool)>>, sheets: &Sheets) -> (result:
    EditResult<()>)
    ensures
        match stories {
            None => result is Ok,
            Some(stories) => match first_story_fault(sheets, stories@, 0) {
                None => result is Ok,
                Some(message) => result matches Err(EditError::InvalidState(m)) && m@ == message,
            },
        },
{
    let list = match stories {
        Some(list) => list,
        None => {
            return Ok(());
        },
    };
    let mut k: usize = 0;
    while k < list.len()
        invariant
            stories == Some(list),
            k <= list@.len(),
            first_story_fault(sheets, list@, 0) == first_story_fault(sheets, list@, k as int),
        decreases list.len() - k,
    {
        let (key, is_text) = (&list[k].0, list[k].1);
        if !is_text {
            return Err(invalid_state("shape text is not a string"));
        }
        let mut i: usize = 0;
        let mut found = false;
        while i < sheets.entries.len()
            invariant
                i <= sheets.entries@.len(),
                found ==> sheets.has_key(key@),
                !found ==> forall|t: int| 0 <= t < i ==> sheets.entries@[t].key@ != key@,
            decreases sheets.entries.len() - i,
        {
            if str_eq(sheets.entries[i].key.as_str(), key.as_str()) {
                found = true;
            }
            i = i + 1;
        }
        if !found {
            return Err(invalid_state("shape text references a missing shape"));
        }
        k = k + 1;
    }
    Ok(())
}

proof fn lemma_walk_props(sheets: &Sheets, visits: Seq<Visit>, k: int, seen: Set<Seq<char>>)
    requires
        walk(sheets, visits, k, seen) is Ok,
    ensures
        ({
            let entries = walk(sheets, visits, k, seen)->Ok_0;
            &&& forall|i: int, j: int|
                0 <= i < j < entries.len() ==> (#[trigger] entries[i]).0 != (
                #[trigger] entries[j]).0
            &&& forall|i: int| 0 <= i < entries.len() ==> !seen.contains((#[trigger] entries[i]).0)
            &&& forall|i: int|
                0 <= i < entries.len() ==> (#[trigger] entries[i]).3 <= MAX_SHAPE_NESTING
                    && sheets.shape_of(entries[i].0) is Some
        }),
    decreases visits.len() - k,
{
    if 0 <= k < visits.len() {
        let slot = visits[k].0;
        let id = slot.unwrap();
        lemma_walk_props(sheets, visits, k + 1, seen.insert(id));
        let rest = walk(sheets, visits, k + 1, seen.insert(id))->Ok_0;
        let all = walk(sheets, visits, k, seen)->Ok_0;
        assert forall|i: int| 0 <= i < all.len() implies !seen.contains((#[trigger] all[i]).0)
            && all[i].3 <= MAX_SHAPE_NESTING && sheets.shape_of(all[i].0) is Some by {
            if i > 0 {
                assert(all[i] == rest[i - 1]);
            }
        }
        assert forall|i: int, j: int| 0 <= i < j < all.len() implies (#[trigger] all[i]).0 != (
        #[trigger] all[j]).0 by {
            assert(all[j] == rest[j - 1]);
            if i > 0 {
                assert(all[i] == rest[i - 1]);
            } else {
                assert(!seen.insert(id).contains(rest[j - 1].0));
            }
        }
    }
}

/// A walk that succeeds reaches every shape at most once, within the nesting bound, and every
/// shape it reaches is a shape of the sheets map.
pub proof fn lemma_tree_walk_entries(sheets: &Sheets, roots: Seq<Option<Seq<char>>>)
    requires
        tree_walk(sheets, roots) is Ok,
    ensures
        forall|i: int, j: int|
            0 <= i < j < (tree_walk(sheets, roots)->Ok_0).len() ==> (#[trigger] (tree_walk(
                sheets,
                roots,
            )->Ok_0)[i]).0 != (#[trigger] (tree_walk(sheets, roots)->Ok_0)[j]).0,
        forall|i: int|
            0 <= i < (tree_walk(sheets, roots)->Ok_0).len() ==> (#[trigger] (tree_walk(
                sheets,
                roots,
            )->Ok_0)[i]).3 <= MAX_SHAPE_NESTING && sheets.shape_of(
                (tree_walk(sheets, roots)->Ok_0)[i].0,
            ) is Some,
{
    lemma_walk_props(sheets, visits_from(sheets, roots, 0, None, 1), 0, Set::empty());
}

/// Where a shape comes from: the package the session was opened from, or the session.
#[derive(Clone, Copy, Debug, PartialEq, Eq, Structural)]
pub enum ShapeOrigin {
    Original,
    Added,
}

/// The origin a shape records, if it is a known one.
pub open spec fn origin_named(origin: Seq<char>) -> Option<ShapeOrigin> {
    if origin == "original"@ {
        Some(ShapeOrigin::Original)
    } else if origin == "added"@ {
        Some(ShapeOrigin::Added)
    } else {
        None
    }
}

/// Reads a shape's `origin`: a missing or non-string origin and an unknown one are refused.
pub fn shape_origin(origin: &Field) -> (result: EditResult<ShapeOrigin>)
    ensures
        match field_text(*origin) {
            None => result matches Err(EditError::InvalidState(m)) && m@ == "missing origin"@,
            Some(text) => match origin_named(text) {
                Some(known) => result == Ok::<ShapeOrigin, EditError>(known),
                None => result matches Err(EditError::InvalidState(m)) && m@
                    == "invalid shape origin"@,
            },
        },
{
    match origin {
        Field::Text(text) => {
            if str_eq(text.as_str(), "original") {
                Ok(ShapeOrigin::Original)
            } else if str_eq(text.as_str(), "added") {
                Ok(ShapeOrigin::Added)
            } else {
                Err(invalid_state("invalid shape origin"))
            }
        },
        _ => Err(invalid_state("missing origin")),
    }
}

/// The first fault among the origins of the shapes from the `k`-th entry on (entries whose value
/// is no map are skipped).
pub open spec fn first_origin_fault(sheets: &Sheets, k: int) -> Option<Seq<char>>
    decreases sheets.entries@.len() - k,
{
    if k < 0 || k >= sheets.entries@.len() {
        None
    } else {
        match sheets.entries@[k].shape {
            Some(shape) => match field_text(shape.origin) {
                None => Some("missing origin"@),
                Some(text) => if origin_named(text) is None {
                    Some("invalid shape origin"@)
                } else {
                    first_origin_fault(sheets, k + 1)
                },
            },
            None => first_origin_fault(sheets, k + 1),
        }
    }
}

/// The shape is one of the package's own.
pub open spec fn is_original(entry: SheetEntry) -> bool {
    match entry.shape {
        Some(shape) => field_text(shape.origin) == Some("original"@),
        None => false,
    }
}

/// The IDs of the shapes that come from the package, in iteration order; the first shape with
/// a missing or unknown origin is refused.
pub fn original_shape_ids(sheets: &Sheets) -> (result: EditResult<Vec<String>>)
    ensures
        match first_origin_fault(sheets, 0) {
            Some(message) => result matches Err(EditError::InvalidState(m)) && m@ == message,
            None => result matches Ok(ids) && keys_view(ids@) == sheets.entries@.filter(
                |entry: SheetEntry| is_original(entry),
            ).map_values(|entry: SheetEntry| entry.key@),
        },
{
    let mut ids: Vec<String> = Vec::new();
    let mut k: usize = 0;
    while k < sheets.entries.len()
        invariant
            k <= sheets.entries@.len(),
            first_origin_fault(sheets, 0) == first_origin_fault(sheets, k as int),
            keys_view(ids@) == sheets.entries@.take(k as int).filter(
                |entry: SheetEntry| is_original(entry),
            ).map_values(|entry: SheetEntry| entry.key@),
        decreases sheets.entries.len() - k,
    {
        let entry = &sheets.entries[k];
        let ghost before = keys_view(ids@);
        proof {
            let taken = sheets.entries@.take(k + 1);
            assert(taken.drop_last() =~= sheets.entries@.take(k as int));
            assert(taken.last() == *entry);
            taken.filter_lemma(|e: SheetEntry| is_original(e));
            reveal(Seq::filter);
        }
        match &entry.shape {
            Some(shape) => {
                if shape_origin(&shape.origin)? == ShapeOrigin::Original {
                    ids.push(owned(entry.key.as_str()));
                    assert(keys_view(ids@) =~= before.push(entry.key@));
                }
            },
            None => {},
        }
        k = k + 1;
    }
    assert(sheets.entries@.take(k as int) =~= sheets.entries@);
    Ok(ids)
}

} // verus!
