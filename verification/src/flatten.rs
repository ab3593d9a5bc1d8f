//! Flattening a pasted group draft into its nodes, in pre-order.
use vstd::prelude::*;

use crate::args::MAX_SHAPE_NESTING;
use crate::model::{EditError, EditResult, ParseLimits, ShapeTreeDraft};
use crate::paste::FlatTreeNode;
use crate::text::utf8_len;
use crate::xml::{story_text_ok, validate_story_text};

verus! {

/// A flattened node as plain values: the draft, and the position of its parent.
pub type FlatView = (ShapeTreeDraft, Option<usize>);

pub open spec fn flat_view(nodes: Seq<FlatTreeNode>) -> Seq<FlatView> {
    nodes.map_values(|node: FlatTreeNode| (*node.draft, node.parent))
}

/// Why shape text cannot be written back, if it cannot.
pub open spec fn story_refusal(text: Seq<char>, limits: ParseLimits) -> Option<Seq<char>> {
    if utf8_len(text) > limits.max_xml_text_bytes {
        Some("shape text exceeds maximum length"@)
    } else if !story_text_ok(text, limits) {
        Some("shape text contains a character forbidden by XML 1.0"@)
    } else {
        None
    }
}

/// Flattens `draft` at `depth` (1 for the copied root), its parent at `parent`, after the
/// nodes `acc`: the node is refused past the nesting bound, for glue below the root, or for
/// text that cannot be written back; else it follows `acc`, and its children follow in order,
/// each with its subtree.
pub open spec fn flatten_from(
    draft: ShapeTreeDraft,
    parent: Option<usize>,
    depth: int,
    is_root: bool,
    acc: Seq<FlatView>,
    limits: ParseLimits,
) -> Result<Seq<FlatView>, Seq<char>>
    decreases draft, 0int,
{
    if depth > MAX_SHAPE_NESTING {
        Err("shape nesting exceeds maximum depth"@)
    } else if !is_root && draft.glue@.len() > 0 {
        Err("paste glue belongs on the copied root"@)
    } else {
        match story_refusal(draft.text@, limits) {
            Some(message) => Err(message),
            None => flatten_children(
                draft.children@,
                0,
                Some(acc.len() as usize),
                depth + 1,
                acc.push((draft, parent)),
                limits,
            ),
        }
    }
}

/// Flattens the children from the `k`-th on, in order.
pub open spec fn flatten_children(
    kids: Seq<ShapeTreeDraft>,
    k: int,
    parent: Option<usize>,
    depth: int,
    acc: Seq<FlatView>,
    limits: ParseLimits,
) -> Result<Seq<FlatView>, Seq<char>>
    decreases kids, kids.len() - k,
{
    if k < 0 || k >= kids.len() {
        Ok(acc)
    } else {
        match flatten_from(kids[k], parent, depth, false, acc, limits) {
            Err(message) => Err(message),
            Ok(more) => flatten_children(kids, k + 1, parent, depth, more, limits),
        }
    }
}

/// The draft is copied from `source`.
pub open spec fn names_source(draft: ShapeTreeDraft, source: Seq<char>) -> bool {
    draft.source_shape_id matches Some(s) && s@ == source
}

/// What is wrong with the copy sources of the nodes from the `k`-th on, if anything: each must
/// name a non-empty source, and no source may be named twice.
pub open spec fn source_fault(nodes: Seq<FlatView>, k: int) -> Option<Seq<char>>
    decreases nodes.len() - k,
{
    if k < 0 || k >= nodes.len() {
        None
    } else {
        match nodes[k].0.source_shape_id {
            None => Some("paste draft is missing its copy source"@),
            Some(source) => if source@.len() == 0 {
                Some("paste draft is missing its copy source"@)
            } else if exists|j: int| 0 <= j < k && #[trigger] names_source(nodes[j].0, source@) {
                Some("paste draft references its copy source twice"@)
            } else {
                source_fault(nodes, k + 1)
            },
        }
    }
}

/// Flattens `draft` into `nodes`.
#[verifier::loop_isolation(false)]
fn flatten_node<'a>(
    draft: &'a ShapeTreeDraft,
    parent: Option<usize>,
    depth: usize,
    is_root: bool,
    nodes: &mut Vec<FlatTreeNode<'a>>,
    limits: &ParseLimits,
) -> (result: EditResult<()>)
    requires
        1 <= depth <= MAX_SHAPE_NESTING + 1,
    ensures
        match flatten_from(*draft, parent, depth as int, is_root, flat_view(old(nodes)@), *limits) {
            Ok(all) => result is Ok && flat_view(final(nodes)@) == all,
            Err(message) => result matches Err(EditError::InvalidState(m)) && m@ == message,
        },
    decreases draft, 0int,
{
    if depth > MAX_SHAPE_NESTING {
        return Err(EditError::InvalidState(crate::text::owned("shape nesting exceeds maximum depth")));
    }
    if !is_root && draft.glue.len() > 0 {
        return Err(EditError::InvalidState(crate::text::owned("paste glue belongs on the copied root")));
    }
    validate_story_text(draft.text.as_str(), limits)?;
    let index = nodes.len();
    let ghost before = flat_view(nodes@);
    nodes.push(FlatTreeNode { draft, parent });
    assert(flat_view(nodes@) =~= before.push((*draft, parent)));
    let ghost kids = draft.children@;
    let mut k: usize = 0;
    while k < draft.children.len()
        invariant
            k <= kids.len(),
            kids == draft.children@,
            1 <= depth <= MAX_SHAPE_NESTING,
            flatten_children(kids, 0, Some(index), depth + 1, before.push((*draft, parent)), *limits)
                == flatten_children(kids, k as int, Some(index), depth + 1, flat_view(nodes@), *limits),
        decreases kids.len() - k,
    {
        proof {
            assert(decreases_to!(*draft => draft.children@[k as int]));
        }
        flatten_node(&draft.children[k], Some(index), depth + 1, false, nodes, limits)?;
        k = k + 1;
    }
    Ok(())
}

/// Flattens a pasted group draft into its nodes in pre-order, each with its parent's position:
/// the copied root first, each node followed by its children's subtrees in order. A node nested
/// deeper than [`MAX_SHAPE_NESTING`], glue on a node below the root, and shape text that cannot
/// be written back (`limits`) are refused, the first in pre-order; then every node must name a
/// non-empty copy source, and no source may be named twice. The nodes' cells are checked apart,
/// with the formula parser.
#[verifier::loop_isolation(false)]
pub fn flatten_tree_draft<'a>(draft: &'a ShapeTreeDraft, limits: &ParseLimits) -> (result: EditResult<
    Vec<FlatTreeNode<'a>>,
>)
    ensures
        match flatten_from(*draft, None, 1, true, Seq::empty(), *limits) {
            Err(message) => result matches Err(EditError::InvalidState(m)) && m@ == message,
            Ok(all) => match source_fault(all, 0) {
                Some(message) => result matches Err(EditError::InvalidState(m)) && m@ == message,
                None => result matches Ok(nodes) && flat_view(nodes@) == all,
            },
        },
{
    let mut nodes: Vec<FlatTreeNode<'a>> = Vec::new();
    assert(flat_view(nodes@) =~= Seq::<FlatView>::empty());
    flatten_node(draft, None, 1, true, &mut nodes, limits)?;
    let ghost all = flat_view(nodes@);
    let mut k: usize = 0;
    while k < nodes.len()
        invariant
            k <= nodes@.len(),
            all == flat_view(nodes@),
            source_fault(all, 0) == source_fault(all, k as int),
        decreases nodes@.len() - k,
    {
        assert(all[k as int].0 == *nodes@[k as int].draft);
        let source = match &nodes[k].draft.source_shape_id {
            Some(source) => source,
            None => {
                return Err(EditError::InvalidState(crate::text::owned("paste draft is missing its copy source")));
            },
        };
        if source.as_str().unicode_len() == 0 {
            assert(source@.len() == 0);
            return Err(EditError::InvalidState(crate::text::owned("paste draft is missing its copy source")));
        }
        let mut j: usize = 0;
        while j < k
            invariant
                j <= k < nodes@.len(),
                all == flat_view(nodes@),
                forall|t: int| 0 <= t < j ==> !#[trigger] names_source(all[t].0, source@),
            decreases k - j,
        {
            assert(all[j as int].0 == *nodes@[j as int].draft);
            if let Some(other) = &nodes[j].draft.source_shape_id {
                if crate::text::str_eq(other.as_str(), source.as_str()) {
                    assert(names_source(all[j as int].0, source@));
                    return Err(EditError::InvalidState(crate::text::owned("paste draft references its copy source twice")));
                }
            }
            j = j + 1;
        }
        k = k + 1;
    }
    Ok(nodes)
}

} // verus!
