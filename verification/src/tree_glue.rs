//! The glue that lies wholly inside a copied subtree, addressed by the copy's sources.
use vstd::prelude::*;
use vstd::relations::{sorted_by, total_ordering};

use crate::allocate::{
    chars_le, chars_le_exec, lemma_chars_le_antisymmetric, lemma_chars_le_reflexive,
    lemma_chars_le_total, lemma_chars_le_transitive,
};
use crate::connect::{endpoint_name, glue_target_ok, valid_glue_target, GlueEndpoint, GlueRecord};
use crate::model::ShapeTreeGlue;
use crate::orders::{contains_str, keys_view};
use crate::paste_plan::{seen_endpoint, seen_view};
use crate::text::{owned, str_eq};

verus! {

/// A connect of the source page's part: the connector and target sheets and cells.
#[derive(Clone, Debug, PartialEq, Eq)]
pub struct PackageConnect {
    pub from_sheet: u32,
    pub to_sheet: u32,
    pub from_cell: Option<String>,
    pub to_cell: Option<String>,
}

pub type GlueView = (Seq<char>, Seq<char>, Seq<char>, Seq<char>);

pub open spec fn tree_glue_view(glue: ShapeTreeGlue) -> GlueView {
    (glue.connector_source@, glue.endpoint@, glue.target_source@, glue.to_cell@)
}

pub open spec fn tree_glue_views(glue: Seq<ShapeTreeGlue>) -> Seq<GlueView> {
    glue.map_values(|g: ShapeTreeGlue| tree_glue_view(g))
}

/// Glue sorts by connector, then endpoint name, then target and target cell.
pub open spec fn glue_le(x: GlueView, y: GlueView) -> bool {
    if x.0 != y.0 {
        chars_le(x.0, y.0)
    } else if x.1 != y.1 {
        chars_le(x.1, y.1)
    } else if x.2 != y.2 {
        chars_le(x.2, y.2)
    } else {
        chars_le(x.3, y.3)
    }
}

pub open spec fn glue_order() -> spec_fn(GlueView, GlueView) -> bool {
    |x: GlueView, y: GlueView| glue_le(x, y)
}

proof fn lemma_glue_order_total()
    ensures
        total_ordering(glue_order()),
{
    let leq = glue_order();
    assert forall|x: GlueView| #[trigger] leq(x, x) by {
        lemma_chars_le_reflexive(x.3);
    }
    assert forall|x: GlueView, y: GlueView| #[trigger] leq(x, y) && #[trigger] leq(y, x) implies x == y by {
        if x.0 != y.0 {
            lemma_chars_le_antisymmetric(x.0, y.0);
        } else if x.1 != y.1 {
            lemma_chars_le_antisymmetric(x.1, y.1);
        } else if x.2 != y.2 {
            lemma_chars_le_antisymmetric(x.2, y.2);
        } else {
            lemma_chars_le_antisymmetric(x.3, y.3);
        }
    }
    assert forall|x: GlueView, y: GlueView, z: GlueView| #[trigger] leq(x, y) && #[trigger] leq(y, z) implies leq(x, z) by {
        if x.0 != y.0 || y.0 != z.0 {
            if x.0 != y.0 && y.0 != z.0 {
                lemma_chars_le_transitive(x.0, y.0, z.0);
                if x.0 == z.0 {
                    lemma_chars_le_antisymmetric(x.0, y.0);
                }
            }
        } else if x.1 != y.1 || y.1 != z.1 {
            if x.1 != y.1 && y.1 != z.1 {
                lemma_chars_le_transitive(x.1, y.1, z.1);
                if x.1 == z.1 {
                    lemma_chars_le_antisymmetric(x.1, y.1);
                }
            }
        } else if x.2 != y.2 || y.2 != z.2 {
            if x.2 != y.2 && y.2 != z.2 {
                lemma_chars_le_transitive(x.2, y.2, z.2);
                if x.2 == z.2 {
                    lemma_chars_le_antisymmetric(x.2, y.2);
                }
            }
        } else {
            lemma_chars_le_transitive(x.3, y.3, z.3);
        }
    }
    assert forall|x: GlueView, y: GlueView| #[trigger] leq(x, y) || #[trigger] leq(y, x) by {
        lemma_chars_le_total(x.0, y.0);
        lemma_chars_le_total(x.1, y.1);
        lemma_chars_le_total(x.2, y.2);
        lemma_chars_le_total(x.3, y.3);
    }
}

/// The session glue among the first `n` records that lies on page `page_id` with its
/// connector and target both in the subtree.
pub open spec fn member_glue(records: Seq<GlueRecord>, page_id: Seq<char>, members: Seq<Seq<char>>, n: int) -> Seq<
    GlueRecord,
>
    decreases n,
{
    if n <= 0 || n > records.len() {
        Seq::empty()
    } else {
        let rest = member_glue(records, page_id, members, n - 1);
        let r = records[n - 1];
        if r.page_id@ == page_id && members.contains(r.connector_id@) && members.contains(r.target_id@) {
            rest.push(r)
        } else {
            rest
        }
    }
}

pub open spec fn record_glue_view(r: GlueRecord) -> GlueView {
    (r.connector_id@, endpoint_name(r.endpoint), r.target_id@, r.to_cell@)
}

/// The session shape a source ID of the copied subtree names, among the first `n` of
/// `by_source`: the last one recorded for it.
pub open spec fn source_named_upto(by_source: Seq<(u32, String)>, n: int, id: u32) -> Option<Seq<char>>
    decreases n,
{
    if n <= 0 || n > by_source.len() {
        None
    } else if by_source[n - 1].0 == id {
        Some(by_source[n - 1].1@)
    } else {
        source_named_upto(by_source, n - 1, id)
    }
}

/// The session shape a source ID of the copied subtree names: the last one recorded for it.
pub open spec fn source_named(by_source: Seq<(u32, String)>, id: u32) -> Option<Seq<char>> {
    source_named_upto(by_source, by_source.len() as int, id)
}

/// The connector end a package connect glues: `BeginX` or `EndX`.
pub open spec fn connect_endpoint(from_cell: Option<String>) -> Option<GlueEndpoint> {
    match from_cell {
        Some(cell) => if cell@ == "BeginX"@ {
            Some(GlueEndpoint::Begin)
        } else if cell@ == "EndX"@ {
            Some(GlueEndpoint::End)
        } else {
            None
        },
        None => None,
    }
}

/// The cell a package connect glues to: `PinX` where it names none, else a valid target.
pub open spec fn connect_target_cell(to_cell: Option<String>) -> Option<Seq<char>> {
    match to_cell {
        None => Some("PinX"@),
        Some(cell) => if glue_target_ok(cell@) {
            Some(cell@)
        } else {
            None
        },
    }
}

/// The package glue from the `k`-th connect on, after `acc`, given the connector endpoints
/// `seen` so far: a connect whose ends are both in the subtree adds its glue unless its
/// connector endpoint is already glued.
pub open spec fn package_glue(
    connects: Seq<PackageConnect>,
    by_source: Seq<(u32, String)>,
    k: int,
    seen: Seq<(Seq<char>, GlueEndpoint)>,
    acc: Seq<GlueView>,
) -> Seq<GlueView>
    decreases connects.len() - k,
{
    if k < 0 || k >= connects.len() {
        acc
    } else {
        let c = connects[k];
        match (connect_endpoint(c.from_cell), connect_target_cell(c.to_cell), source_named(by_source, c.from_sheet), source_named(by_source, c.to_sheet)) {
            (Some(endpoint), Some(cell), Some(connector), Some(target)) => if seen.contains((connector, endpoint)) {
                package_glue(connects, by_source, k + 1, seen, acc)
            } else {
                package_glue(
                    connects,
                    by_source,
                    k + 1,
                    seen.push((connector, endpoint)),
                    acc.push((connector, endpoint_name(endpoint), target, cell)),
                )
            },
            _ => package_glue(connects, by_source, k + 1, seen, acc),
        }
    }
}

/// The glue wholly inside a copied subtree, before sorting: the session records first, then
/// the source page's connects.
pub open spec fn subtree_glue_found(
    records: Seq<GlueRecord>,
    page_id: Seq<char>,
    members: Seq<Seq<char>>,
    connects: Seq<PackageConnect>,
    by_source: Seq<(u32, String)>,
) -> Seq<GlueView> {
    let session = member_glue(records, page_id, members, records.len() as int);
    package_glue(
        connects,
        by_source,
        0,
        session.map_values(|r: GlueRecord| (r.connector_id@, r.endpoint)),
        session.map_values(|r: GlueRecord| record_glue_view(r)),
    )
}

fn lookup_source(by_source: &Vec<(u32, String)>, id: u32) -> (result: Option<String>)
    ensures
        match result {
            Some(s) => source_named(by_source@, id) == Some(s@),
            None => source_named(by_source@, id) is None,
        },
{
    let mut n: usize = by_source.len();
    while n > 0
        invariant
            n <= by_source@.len(),
            source_named(by_source@, id) == source_named_upto(by_source@, n as int, id),
        decreases n,
    {
        if by_source[n - 1].0 == id {
            return Some(by_source[n - 1].1.clone());
        }
        n = n - 1;
    }
    None
}

pub open spec fn seen_views(seen: Seq<(String, GlueEndpoint)>) -> Seq<(Seq<char>, GlueEndpoint)> {
    seen_view(seen)
}

/// Collects the session glue of the subtree, with the connector endpoints it glues.
fn collect_session_glue(
    records: &Vec<GlueRecord>,
    page_id: &str,
    members: &Vec<String>,
    out: &mut Vec<ShapeTreeGlue>,
    seen: &mut Vec<(String, GlueEndpoint)>,
)
    requires
        old(out)@.len() == 0,
        old(seen)@.len() == 0,
    ensures
        ({
            let session = member_glue(records@, page_id@, keys_view(members@), records@.len() as int);
            &&& tree_glue_views(final(out)@) == session.map_values(|r: GlueRecord| record_glue_view(r))
            &&& seen_views(final(seen)@) == session.map_values(|r: GlueRecord| (r.connector_id@, r.endpoint))
        }),
{
    let ghost mv = keys_view(members@);
    let mut k: usize = 0;
    assert(tree_glue_views(out@) =~= Seq::<GlueView>::empty());
    assert(seen_views(seen@) =~= Seq::<(Seq<char>, GlueEndpoint)>::empty());
    while k < records.len()
        invariant
            k <= records@.len(),
            mv == keys_view(members@),
            tree_glue_views(out@) == member_glue(records@, page_id@, mv, k as int).map_values(
                |r: GlueRecord| record_glue_view(r),
            ),
            seen_views(seen@) == member_glue(records@, page_id@, mv, k as int).map_values(
                |r: GlueRecord| (r.connector_id@, r.endpoint),
            ),
        decreases records@.len() - k,
    {
        let r = &records[k];
        let ghost prior = member_glue(records@, page_id@, mv, k as int);
        if str_eq(r.page_id.as_str(), page_id) && contains_str(members, r.connector_id.as_str())
            && contains_str(members, r.target_id.as_str()) {
            let ghost before_out = tree_glue_views(out@);
            let ghost before_seen = seen_views(seen@);
            seen.push((r.connector_id.clone(), r.endpoint));
            out.push(
                ShapeTreeGlue {
                    connector_source: r.connector_id.clone(),
                    endpoint: owned(r.endpoint.name()),
                    target_source: r.target_id.clone(),
                    to_cell: r.to_cell.clone(),
                },
            );
            assert(tree_glue_views(out@) =~= before_out.push(record_glue_view(*r)));
            assert(seen_views(seen@) =~= before_seen.push((r.connector_id@, r.endpoint)));
            assert(member_glue(records@, page_id@, mv, k + 1) == prior.push(*r));
            assert(prior.push(*r).map_values(|r: GlueRecord| record_glue_view(r)) =~= prior.map_values(
                |r: GlueRecord| record_glue_view(r),
            ).push(record_glue_view(*r)));
            assert(prior.push(*r).map_values(|r: GlueRecord| (r.connector_id@, r.endpoint)) =~= prior.map_values(
                |r: GlueRecord| (r.connector_id@, r.endpoint),
            ).push((r.connector_id@, r.endpoint)));
        } else {
            assert(member_glue(records@, page_id@, mv, k + 1) == prior);
        }
        k = k + 1;
    }
}

/// Reads the connector end a package connect glues.
fn endpoint_of_connect(from_cell: &Option<String>) -> (result: Option<GlueEndpoint>)
    ensures
        result == connect_endpoint(*from_cell),
{
    match from_cell {
        Some(cell) => {
            if str_eq(cell.as_str(), "BeginX") {
                Some(GlueEndpoint::Begin)
            } else if str_eq(cell.as_str(), "EndX") {
                Some(GlueEndpoint::End)
            } else {
                None
            }
        },
        None => None,
    }
}

/// Reads the cell a package connect glues to.
fn target_cell_of_connect(to_cell: &Option<String>) -> (result: Option<String>)
    ensures
        match result {
            Some(cell) => connect_target_cell(*to_cell) == Some(cell@),
            None => connect_target_cell(*to_cell) is None,
        },
{
    match to_cell {
        None => Some(owned("PinX")),
        Some(cell) => {
            if valid_glue_target(cell.as_str()) {
                Some(cell.clone())
            } else {
                None
            }
        },
    }
}

/// Adds the package glue after the session glue.
fn collect_package_glue(
    connects: &Vec<PackageConnect>,
    by_source: &Vec<(u32, String)>,
    out: &mut Vec<ShapeTreeGlue>,
    seen: &mut Vec<(String, GlueEndpoint)>,
)
    ensures
        tree_glue_views(final(out)@) == package_glue(
            connects@,
            by_source@,
            0,
            seen_views(old(seen)@),
            tree_glue_views(old(out)@),
        ),
{
    let mut k: usize = 0;
    while k < connects.len()
        invariant
            k <= connects@.len(),
            package_glue(connects@, by_source@, 0, seen_views(old(seen)@), tree_glue_views(old(out)@))
                == package_glue(connects@, by_source@, k as int, seen_views(seen@), tree_glue_views(out@)),
        decreases connects@.len() - k,
    {
        let c = &connects[k];
        let endpoint = endpoint_of_connect(&c.from_cell);
        let cell = target_cell_of_connect(&c.to_cell);
        let connector = lookup_source(by_source, c.from_sheet);
        let target = lookup_source(by_source, c.to_sheet);
        match (endpoint, cell, connector, target) {
            (Some(endpoint), Some(cell), Some(connector), Some(target)) => {
                if !seen_endpoint(seen, connector.as_str(), endpoint) {
                    let ghost before_out = tree_glue_views(out@);
                    let ghost before_seen = seen_views(seen@);
                    seen.push((connector.clone(), endpoint));
                    out.push(
                        ShapeTreeGlue {
                            connector_source: connector,
                            endpoint: owned(endpoint.name()),
                            target_source: target,
                            to_cell: cell,
                        },
                    );
                    assert(seen_views(seen@) =~= before_seen.push((connector@, endpoint)));
                    assert(tree_glue_views(out@) =~= before_out.push(
                        (connector@, endpoint_name(endpoint), target@, cell@),
                    ));
                }
            },
            _ => {},
        }
        k = k + 1;
    }
}

/// Sorts glue by connector, endpoint, target and target cell.
fn sort_glue(glue: Vec<ShapeTreeGlue>) -> (result: Vec<ShapeTreeGlue>)
    ensures
        tree_glue_views(result@) == tree_glue_views(glue@).sort_by(glue_order()),
{
    broadcast use vstd::seq_lib::group_to_multiset_ensures;

    let ghost leq = glue_order();
    proof {
        lemma_glue_order_total();
    }
    let ghost all = tree_glue_views(glue@);
    let mut out: Vec<ShapeTreeGlue> = Vec::new();
    let mut i: usize = 0;
    while i < glue.len()
        invariant
            i <= glue@.len(),
            all == tree_glue_views(glue@),
            leq == glue_order(),
            total_ordering(leq),
            sorted_by(tree_glue_views(out@), leq),
            tree_glue_views(out@).to_multiset() == all.take(i as int).to_multiset(),
        decreases glue.len() - i,
    {
        let item = ShapeTreeGlue {
            connector_source: glue[i].connector_source.clone(),
            endpoint: glue[i].endpoint.clone(),
            target_source: glue[i].target_source.clone(),
            to_cell: glue[i].to_cell.clone(),
        };
        let ghost v = tree_glue_view(item);
        assert(v == all[i as int]);
        let ghost before = tree_glue_views(out@);
        let mut p: usize = 0;
        while p < out.len() && glue_le_exec(&out[p], &item)
            invariant
                p <= out@.len(),
                before == tree_glue_views(out@),
                v == tree_glue_view(item),
                leq == glue_order(),
                forall|k: int| 0 <= k < p ==> #[trigger] leq(before[k], v),
            decreases out.len() - p,
        {
            assert(before[p as int] == tree_glue_view(out@[p as int]));
            p = p + 1;
        }
        assert forall|k: int| p <= k < before.len() implies #[trigger] leq(v, before[k]) by {
            assert(before[p as int] == tree_glue_view(out@[p as int]));
            assert(!leq(before[p as int], v));
            assert(leq(v, before[p as int]));
            if k > p {
                assert(leq(before[p as int], before[k]));
            }
        }
        out.insert(p, item);
        proof {
            assert(tree_glue_views(out@) =~= before.insert(p as int, v));
            before.insert_ensures(p as int, v);
            vstd::seq_lib::to_multiset_insert(before, p as int, v);
            let after = before.insert(p as int, v);
            assert forall|a: int, b: int| 0 <= a < b < after.len() implies #[trigger] leq(after[a], after[b]) by {
                if b < p {
                } else if b == p {
                } else if a < p {
                    assert(after[b] == before[b - 1]);
                    assert(leq(before[a], v));
                    assert(leq(v, before[b - 1]));
                } else if a == p {
                    assert(after[b] == before[b - 1]);
                } else {
                    assert(after[b] == before[b - 1]);
                    assert(after[a] == before[a - 1]);
                }
            }
            assert(all.take(i + 1) =~= all.take(i as int).push(v));
            vstd::seq_lib::to_multiset_build(all.take(i as int), v);
            assert(tree_glue_views(out@).to_multiset() == before.to_multiset().insert(v));
        }
        i = i + 1;
    }
    assert(all.take(all.len() as int) == all);
    proof {
        all.lemma_sort_by_ensures(leq);
        vstd::seq_lib::lemma_sorted_unique(tree_glue_views(out@), all.sort_by(leq), leq);
    }
    out
}

fn glue_le_exec(x: &ShapeTreeGlue, y: &ShapeTreeGlue) -> (result: bool)
    ensures
        result == glue_le(tree_glue_view(*x), tree_glue_view(*y)),
{
    if !str_eq(x.connector_source.as_str(), y.connector_source.as_str()) {
        chars_le_exec(x.connector_source.as_str(), y.connector_source.as_str())
    } else if !str_eq(x.endpoint.as_str(), y.endpoint.as_str()) {
        chars_le_exec(x.endpoint.as_str(), y.endpoint.as_str())
    } else if !str_eq(x.target_source.as_str(), y.target_source.as_str()) {
        chars_le_exec(x.target_source.as_str(), y.target_source.as_str())
    } else {
        chars_le_exec(x.to_cell.as_str(), y.to_cell.as_str())
    }
}

/// The glue wholly inside a copied subtree, addressed by copy sources: the session's glue
/// records on page `page_id` whose connector and target are both `members` of the subtree,
/// then the source page's `connects` between shapes of the subtree (`by_source` records the
/// session shape of each original's source ID, the last record counting) whose connector
/// endpoint is not glued already.
/// The result is sorted by connector, endpoint, target and target cell; as the session names
/// each connector endpoint in one record at most, and the connects add none twice, that is the
/// order by connector and endpoint.
pub fn subtree_glue_of(
    records: &Vec<GlueRecord>,
    page_id: &str,
    members: &Vec<String>,
    connects: &Vec<PackageConnect>,
    by_source: &Vec<(u32, String)>,
) -> (result: Vec<ShapeTreeGlue>)
    ensures
        tree_glue_views(result@) == subtree_glue_found(
            records@,
            page_id@,
            keys_view(members@),
            connects@,
            by_source@,
        ).sort_by(glue_order()),
{
    let mut out: Vec<ShapeTreeGlue> = Vec::new();
    let mut seen: Vec<(String, GlueEndpoint)> = Vec::new();
    collect_session_glue(records, page_id, members, &mut out, &mut seen);
    collect_package_glue(connects, by_source, &mut out, &mut seen);
    sort_glue(out)
}

} // verus!
