//! The glue records a document stores, read back, checked against its pages and shapes, and
//! listed by ID.
use vstd::prelude::*;

use crate::connect::{endpoint_named, glue_key, glue_key_of, GlueEndpoint, GlueRecord};
use crate::model::{invalid_state, EditError, EditResult};
use crate::shape_tree::{field_text, find_shape, Field, ShapeRecord, Sheets};
use crate::text::{chars_of, owned, str_eq};

verus! {

/// What the check reads of one stored glue record.
#[derive(Clone, Debug, PartialEq, Eq)]
pub struct GlueFields {
    pub id: Field,
    pub page_id: Field,
    pub connector_id: Field,
    pub endpoint: Field,
    pub target_id: Field,
    pub to_cell: Field,
}

/// One entry of the glue map: its key, and the record when the value is a map.
#[derive(Clone, Debug, PartialEq, Eq)]
pub struct GlueEntry {
    pub key: String,
    pub fields: Option<GlueFields>,
}

/// Why a glue record is refused: a fault of the record, or a page it names that does not exist.
pub enum GlueFault {
    Invalid(Seq<char>),
    PageMissing(Seq<char>),
}

/// A glue record as plain values.
pub type RecordView = (Seq<char>, Seq<char>, Seq<char>, GlueEndpoint, Seq<char>, Seq<char>);

pub open spec fn record_view(record: GlueRecord) -> RecordView {
    (
        record.id@,
        record.page_id@,
        record.connector_id@,
        record.endpoint,
        record.target_id@,
        record.to_cell@,
    )
}

pub open spec fn records_view(records: Seq<GlueRecord>) -> Seq<RecordView> {
    records.map_values(|record: GlueRecord| record_view(record))
}

/// Strings ordered as Rust orders them: by their characters' code points, a prefix first.
pub open spec fn str_less(a: Seq<char>, b: Seq<char>) -> bool
    decreases a.len(),
{
    if b.len() == 0 {
        false
    } else if a.len() == 0 {
        true
    } else if a[0] != b[0] {
        (a[0] as int) < (b[0] as int)
    } else {
        str_less(a.drop_first(), b.drop_first())
    }
}

/// The records increase strictly by ID.
pub open spec fn sorted_by_id(records: Seq<RecordView>) -> bool {
    forall|i: int, j: int| 0 <= i < j < records.len() ==> str_less(records[i].0, records[j].0)
}

/// `id` names an entry of the pages map whose value is a map.
pub open spec fn page_is_map(pages: Seq<(String, bool)>, id: Seq<char>) -> bool {
    exists|i: int| 0 <= i < pages.len() && #[trigger] pages[i].0@ == id && pages[i].1
}

/// What is wrong with a connector's origin: it must be an added shape.
pub open spec fn origin_fault(shape: ShapeRecord) -> Option<Seq<char>> {
    match field_text(shape.origin) {
        None => Some("missing origin"@),
        Some(origin) => if origin == "added"@ {
            None
        } else if origin == "original"@ {
            Some("connector glue needs a session connector"@)
        } else {
            Some("invalid shape origin"@)
        },
    }
}

/// What is wrong with a shape the glue names, where it is a shape: it must lie on the glue's
/// page, and, as the connector, be an added shape.
pub open spec fn shape_fault(sheets: &Sheets, id: Seq<char>, page: Seq<char>, connector: bool) -> Option<
    Seq<char>,
> {
    match sheets.shape_of(id) {
        Some(shape) => if field_text(shape.page_id) != Some(page) {
            Some("connector glue crosses pages"@)
        } else if connector {
            origin_fault(shape)
        } else {
            None
        },
        None => None,
    }
}

/// The record an entry holds, or the first fault it has, in the order the check reads it.
pub open spec fn entry_outcome(entry: GlueEntry, pages: Seq<(String, bool)>, sheets: &Sheets) -> Result<
    RecordView,
    GlueFault,
> {
    if entry.fields is None {
        Err(GlueFault::Invalid("connector glue is not a map"@))
    } else {
        let g = entry.fields.unwrap();
        if field_text(g.endpoint) is None {
            Err(GlueFault::Invalid("missing endpoint"@))
        } else if endpoint_named(field_text(g.endpoint).unwrap()) is None {
            Err(GlueFault::Invalid("connector glue has no endpoint"@))
        } else if field_text(g.id) is None {
            Err(GlueFault::Invalid("missing id"@))
        } else if field_text(g.page_id) is None {
            Err(GlueFault::Invalid("missing pageId"@))
        } else if field_text(g.connector_id) is None {
            Err(GlueFault::Invalid("missing connectorId"@))
        } else if field_text(g.target_id) is None {
            Err(GlueFault::Invalid("missing targetId"@))
        } else if field_text(g.to_cell) is None {
            Err(GlueFault::Invalid("missing toCell"@))
        } else {
            let endpoint = endpoint_named(field_text(g.endpoint).unwrap()).unwrap();
            let id = field_text(g.id).unwrap();
            let page = field_text(g.page_id).unwrap();
            let connector = field_text(g.connector_id).unwrap();
            let target = field_text(g.target_id).unwrap();
            if id != entry.key@ || entry.key@ != glue_key_of(connector, endpoint) {
                Err(GlueFault::Invalid("connector glue ID does not match its endpoint"@))
            } else if !page_is_map(pages, page) {
                Err(GlueFault::PageMissing(page))
            } else if shape_fault(sheets, connector, page, true) is Some {
                Err(GlueFault::Invalid(shape_fault(sheets, connector, page, true).unwrap()))
            } else if shape_fault(sheets, target, page, target == connector) is Some {
                Err(GlueFault::Invalid(shape_fault(sheets, target, page, target == connector).unwrap()))
            } else {
                Ok((id, page, connector, endpoint, target, field_text(g.to_cell).unwrap()))
            }
        }
    }
}

/// The records of the entries from the `k`-th on, in order, or the first fault.
pub open spec fn collect(
    entries: Seq<GlueEntry>,
    k: int,
    pages: Seq<(String, bool)>,
    sheets: &Sheets,
) -> Result<Seq<RecordView>, GlueFault>
    decreases entries.len() - k,
{
    if k < 0 || k >= entries.len() {
        Ok(Seq::empty())
    } else {
        match entry_outcome(entries[k], pages, sheets) {
            Err(fault) => Err(fault),
            Ok(record) => match collect(entries, k + 1, pages, sheets) {
                Ok(rest) => Ok(seq![record] + rest),
                Err(fault) => Err(fault),
            },
        }
    }
}

/// The error a fault is reported as.
pub open spec fn glue_fault_error(error: EditError, fault: GlueFault) -> bool {
    match fault {
        GlueFault::Invalid(message) => error matches EditError::InvalidState(m) && m@ == message,
        GlueFault::PageMissing(page) => error matches EditError::PageNotFound(p) && p@ == page,
    }
}

proof fn lemma_str_less_irreflexive(a: Seq<char>)
    ensures
        !str_less(a, a),
    decreases a.len(),
{
    if a.len() > 0 {
        lemma_str_less_irreflexive(a.drop_first());
    }
}

proof fn lemma_str_less_transitive(a: Seq<char>, b: Seq<char>, c: Seq<char>)
    requires
        str_less(a, b),
        str_less(b, c),
    ensures
        str_less(a, c),
    decreases a.len(),
{
    if a.len() > 0 && b.len() > 0 && c.len() > 0 && a[0] == b[0] && b[0] == c[0] {
        lemma_str_less_transitive(a.drop_first(), b.drop_first(), c.drop_first());
    }
}

proof fn lemma_str_less_total(a: Seq<char>, b: Seq<char>)
    requires
        a != b,
    ensures
        str_less(a, b) || str_less(b, a),
    decreases a.len(),
{
    if a.len() == 0 {
        assert(b.len() > 0) by {
            if b.len() == 0 {
                assert(a =~= b);
            }
        }
    } else if b.len() == 0 {
    } else if a[0] == b[0] {
        if a.drop_first() == b.drop_first() {
            assert(a =~= seq![a[0]] + a.drop_first());
            assert(b =~= seq![b[0]] + b.drop_first());
        }
        lemma_str_less_total(a.drop_first(), b.drop_first());
    } else {
        assert((a[0] as int) != (b[0] as int));
    }
}

/// Whether `a` comes before `b` as Rust orders strings.
fn str_lt(a: &str, b: &str) -> (result: bool)
    ensures
        result == str_less(a@, b@),
{
    let x = chars_of(a);
    let y = chars_of(b);
    let mut i: usize = 0;
    assert(x@.skip(0) =~= x@);
    assert(y@.skip(0) =~= y@);
    while i < x.len() && i < y.len()
        invariant
            x@ == a@,
            y@ == b@,
            i <= x@.len(),
            i <= y@.len(),
            str_less(a@, b@) == str_less(x@.skip(i as int), y@.skip(i as int)),
        decreases x.len() - i,
    {
        let ghost xs = x@.skip(i as int);
        let ghost ys = y@.skip(i as int);
        assert(xs[0] == x@[i as int]);
        assert(ys[0] == y@[i as int]);
        if x[i] != y[i] {
            return x[i] < y[i];
        }
        assert(xs.drop_first() =~= x@.skip(i + 1));
        assert(ys.drop_first() =~= y@.skip(i + 1));
        i = i + 1;
    }
    i < y.len()
}

fn required_text<'a>(field: &'a Field, missing: &str) -> (result: EditResult<&'a String>)
    ensures
        match field_text(*field) {
            Some(text) => result matches Ok(s) && s@ == text,
            None => result matches Err(EditError::InvalidState(m)) && m@ == missing@,
        },
{
    match field {
        Field::Text(text) => Ok(text),
        _ => Err(invalid_state(missing)),
    }
}

pub(crate) fn page_exists(pages: &Vec<(String, bool)>, id: &str) -> (result: bool)
    requires
        forall|i: int, j: int| 0 <= i < j < pages@.len() ==> #[trigger] pages@[i].0@ != #[trigger] pages@[j].0@,
    ensures
        result == page_is_map(pages@, id@),
{
    let mut i: usize = 0;
    while i < pages.len()
        invariant
            i <= pages@.len(),
            forall|t: int| 0 <= t < i ==> pages@[t].0@ != id@,
            forall|a: int, b: int| 0 <= a < b < pages@.len() ==> #[trigger] pages@[a].0@ != #[trigger] pages@[b].0@,
        decreases pages.len() - i,
    {
        if str_eq(pages[i].0.as_str(), id) {
            assert forall|t: int| 0 <= t < pages@.len() && #[trigger] pages@[t].0@ == id@ implies t == i by {
                if t < i {
                } else if t > i {
                    assert(pages@[i as int].0@ != pages@[t].0@);
                }
            }
            return pages[i].1;
        }
        i = i + 1;
    }
    false
}

fn check_shape(sheets: &Sheets, id: &str, page: &str, connector: bool) -> (result: Option<&'static str>)
    requires
        sheets.wf(),
    ensures
        match result {
            Some(message) => shape_fault(sheets, id@, page@, connector) == Some(message@),
            None => shape_fault(sheets, id@, page@, connector) is None,
        },
{
    let o = match find_shape(sheets, id) {
        Some(o) => o,
        None => {
            return None;
        },
    };
    let shape = match &sheets.entries[o].shape {
        Some(shape) => shape,
        None => {
            return None;
        },
    };
    let same_page = match &shape.page_id {
        Field::Text(stored) => str_eq(stored.as_str(), page),
        _ => false,
    };
    if !same_page {
        return Some("connector glue crosses pages");
    }
    if !connector {
        return None;
    }
    match &shape.origin {
        Field::Text(origin) => {
            if str_eq(origin.as_str(), "added") {
                None
            } else if str_eq(origin.as_str(), "original") {
                Some("connector glue needs a session connector")
            } else {
                Some("invalid shape origin")
            }
        },
        _ => Some("missing origin"),
    }
}

/// The record one entry holds, or its first fault.
fn read_entry(entry: &GlueEntry, pages: &Vec<(String, bool)>, sheets: &Sheets) -> (result: EditResult<
    GlueRecord,
>)
    requires
        sheets.wf(),
        forall|i: int, j: int| 0 <= i < j < pages@.len() ==> #[trigger] pages@[i].0@ != #[trigger] pages@[j].0@,
    ensures
        match entry_outcome(*entry, pages@, sheets) {
            Ok(record) => result matches Ok(r) && record_view(r) == record,
            Err(fault) => result matches Err(e) && glue_fault_error(e, fault),
        },
{
    let g = match &entry.fields {
        Some(g) => g,
        None => {
            return Err(invalid_state("connector glue is not a map"));
        },
    };
    let name = required_text(&g.endpoint, "missing endpoint")?;
    let endpoint = match GlueEndpoint::parse(name.as_str()) {
        Some(endpoint) => endpoint,
        None => {
            return Err(invalid_state("connector glue has no endpoint"));
        },
    };
    let id = required_text(&g.id, "missing id")?;
    let page = required_text(&g.page_id, "missing pageId")?;
    let connector = required_text(&g.connector_id, "missing connectorId")?;
    let target = required_text(&g.target_id, "missing targetId")?;
    let to_cell = required_text(&g.to_cell, "missing toCell")?;
    if !str_eq(id.as_str(), entry.key.as_str()) || !str_eq(
        entry.key.as_str(),
        glue_key(connector.as_str(), endpoint).as_str(),
    ) {
        return Err(invalid_state("connector glue ID does not match its endpoint"));
    }
    if !page_exists(pages, page.as_str()) {
        return Err(EditError::PageNotFound(owned(page.as_str())));
    }
    if let Some(message) = check_shape(sheets, connector.as_str(), page.as_str(), true) {
        return Err(invalid_state(message));
    }
    let same = str_eq(target.as_str(), connector.as_str());
    if let Some(message) = check_shape(sheets, target.as_str(), page.as_str(), same) {
        return Err(invalid_state(message));
    }
    Ok(
        GlueRecord {
            id: owned(id.as_str()),
            page_id: owned(page.as_str()),
            connector_id: owned(connector.as_str()),
            endpoint,
            target_id: owned(target.as_str()),
            to_cell: owned(to_cell.as_str()),
        },
    )
}

spec fn prepend(prefix: Seq<RecordView>, outcome: Result<Seq<RecordView>, GlueFault>) -> Result<
    Seq<RecordView>,
    GlueFault,
> {
    match outcome {
        Ok(rest) => Ok(prefix + rest),
        Err(fault) => Err(fault),
    }
}

/// Inserts a record into a list sorted by ID, before the first record whose ID does not come
/// before its own.
fn insert_by_id(list: &mut Vec<GlueRecord>, record: GlueRecord)
    requires
        sorted_by_id(records_view(old(list)@)),
        forall|i: int| 0 <= i < old(list)@.len() ==> #[trigger] old(list)@[i].id@ != record.id@,
    ensures
        sorted_by_id(records_view(final(list)@)),
        final(list)@.len() == old(list)@.len() + 1,
        forall|v: RecordView| #[trigger] records_view(final(list)@).contains(v) <==> (records_view(
            old(list)@,
        ).contains(v) || v == record_view(record)),
{
    let ghost before = records_view(list@);
    let mut p: usize = 0;
    while p < list.len() && str_lt(list[p].id.as_str(), record.id.as_str())
        invariant
            p <= list@.len(),
            before == records_view(list@),
            forall|t: int| 0 <= t < p ==> str_less(#[trigger] before[t].0, record.id@),
        decreases list.len() - p,
    {
        assert(before[p as int].0 == list@[p as int].id@);
        p = p + 1;
    }
    let ghost x = record_view(record);
    if p < list.len() {
        assert(before[p as int].0 == list@[p as int].id@);
        proof {
            lemma_str_less_total(before[p as int].0, x.0);
        }
    }
    list.insert(p, record);
    let ghost after = records_view(list@);
    assert(after =~= before.insert(p as int, x));
    assert forall|i: int, j: int| 0 <= i < j < after.len() implies str_less(after[i].0, after[j].0) by {
        if j < p {
            assert(after[i] == before[i] && after[j] == before[j]);
        } else if j == p {
            assert(after[i] == before[i]);
        } else if i < p {
            assert(after[i] == before[i] && after[j] == before[j - 1]);
        } else if i == p {
            assert(after[j] == before[j - 1]);
            if j - 1 > p {
                lemma_str_less_transitive(x.0, before[p as int].0, before[j - 1].0);
            }
        } else {
            assert(after[i] == before[i - 1] && after[j] == before[j - 1]);
        }
    }
    assert forall|v: RecordView| #[trigger] after.contains(v) <==> (before.contains(v) || v == x) by {
        if after.contains(v) {
            let k = choose|k: int| 0 <= k < after.len() && after[k] == v;
            if k < p {
                assert(before[k] == v);
            } else if k > p {
                assert(before[k - 1] == v);
            }
        }
        if before.contains(v) {
            let k = choose|k: int| 0 <= k < before.len() && before[k] == v;
            if k < p {
                assert(after[k] == v);
            } else {
                assert(after[k + 1] == v);
            }
        }
        if v == x {
            assert(after[p as int] == v);
        }
    }
}

/// The glue records a document stores, listed by ID, after checking each in iteration order:
/// it must be a map with a known endpoint and all its fields, be stored under the key its
/// connector and endpoint give, name an existing page, and join shapes of that page only,
/// the connector being an added shape. A document without a glue map has none.
pub fn glue_records(connects: Option<&Vec<GlueEntry>>, pages: &Vec<(String, bool)>, sheets: &Sheets) -> (result:
    EditResult<Vec<GlueRecord>>)
    requires
        sheets.wf(),
        forall|i: int, j: int| 0 <= i < j < pages@.len() ==> #[trigger] pages@[i].0@ != #[trigger] pages@[j].0@,
        connects matches Some(list) ==> forall|i: int, j: int|
            0 <= i < j < list@.len() ==> #[trigger] list@[i].key@ != #[trigger] list@[j].key@,
    ensures
        match connects {
            None => result matches Ok(records) && records@.len() == 0,
            Some(list) => match collect(list@, 0, pages@, sheets) {
                Err(fault) => result matches Err(error) && glue_fault_error(error, fault),
                Ok(found) => result matches Ok(records) && {
                    &&& sorted_by_id(records_view(records@))
                    &&& records@.len() == found.len()
                    &&& forall|v: RecordView| #[trigger] records_view(records@).contains(v)
                        <==> found.contains(v)
                },
            },
        },
{
    let list = match connects {
        Some(list) => list,
        None => {
            return Ok(Vec::new());
        },
    };
    let mut records: Vec<GlueRecord> = Vec::new();
    let mut k: usize = 0;
    proof {
        assert(records_view(records@) =~= Seq::<RecordView>::empty());
        match collect(list@, 0, pages@, sheets) {
            Ok(rest) => {
                assert(Seq::<RecordView>::empty() + rest =~= rest);
            },
            Err(_) => {},
        }
    }
    while k < list.len()
        invariant
            connects == Some(list),
            sheets.wf(),
            forall|i: int, j: int| 0 <= i < j < pages@.len() ==> #[trigger] pages@[i].0@ != #[trigger] pages@[j].0@,
            k <= list@.len(),
            records@.len() == k,
            collect(list@, 0, pages@, sheets) == prepend(
                records_view(records@),
                collect(list@, k as int, pages@, sheets),
            ),
            forall|t: int| 0 <= t < k ==> (#[trigger] records@[t]).id@ == list@[t].key@,
        decreases list.len() - k,
    {
        let record = read_entry(&list[k], pages, sheets)?;
        let ghost v = record_view(record);
        let ghost before = records_view(records@);
        records.push(record);
        proof {
            assert(records_view(records@) =~= before.push(v));
            match collect(list@, k + 1, pages@, sheets) {
                Ok(rest) => {
                    assert(before.push(v) + rest =~= before + (seq![v] + rest));
                },
                Err(_) => {},
            }
        }
        k = k + 1;
    }
    let ghost all = records_view(records@);
    proof {
        assert(collect(list@, k as int, pages@, sheets) == Ok::<Seq<RecordView>, GlueFault>(Seq::empty()));
        assert(all + Seq::<RecordView>::empty() =~= all);
    }
    let mut sorted: Vec<GlueRecord> = Vec::new();
    proof {
        assert(records_view(sorted@) =~= Seq::<RecordView>::empty());
        assert(all.skip(all.len() as int) =~= Seq::<RecordView>::empty());
    }
    while records.len() > 0
        invariant
            connects == Some(list),
            forall|i: int, j: int|
                0 <= i < j < list@.len() ==> #[trigger] list@[i].key@ != #[trigger] list@[j].key@,
            all.len() == list@.len(),
            forall|t: int| 0 <= t < all.len() ==> (#[trigger] all[t]).0 == list@[t].key@,
            records@.len() <= all.len(),
            records_view(records@) == all.take(records@.len() as int),
            sorted_by_id(records_view(sorted@)),
            sorted@.len() == all.len() - records@.len(),
            forall|v: RecordView| #[trigger] records_view(sorted@).contains(v) <==> all.skip(
                records@.len() as int,
            ).contains(v),
        decreases records@.len(),
    {
        let n = records.len();
        let ghost front = records_view(records@);
        let record = match records.pop() {
            Some(record) => record,
            None => {
                proof {
                    assert(false);
                }
                return Ok(sorted);
            },
        };
        let ghost x = record_view(record);
        proof {
            assert(front[n - 1] == x);
            assert(all[n - 1] == x);
            assert(records_view(records@) =~= all.take(n - 1));
            assert forall|i: int| 0 <= i < sorted@.len() implies #[trigger] sorted@[i].id@ != record.id@ by {
                let w = records_view(sorted@)[i];
                assert(records_view(sorted@).contains(w));
                let q = choose|q: int| 0 <= q < all.skip(n as int).len() && all.skip(n as int)[q] == w;
                assert(all[n + q] == w);
                assert(list@[n - 1].key@ != list@[n + q].key@);
            }
        }
        insert_by_id(&mut sorted, record);
        proof {
            let later = all.skip(n as int);
            let now = all.skip(n - 1);
            assert(now =~= seq![x] + later);
            assert forall|v: RecordView| #[trigger] records_view(sorted@).contains(v) <==> now.contains(
                v,
            ) by {
                if later.contains(v) {
                    let q = choose|q: int| 0 <= q < later.len() && later[q] == v;
                    assert(now[q + 1] == v);
                }
                if now.contains(v) && v != x {
                    let q = choose|q: int| 0 <= q < now.len() && now[q] == v;
                    assert(later[q - 1] == v);
                }
                if v == x {
                    assert(now[0] == x);
                }
            }
        }
    }
    proof {
        assert(all.skip(0) =~= all);
    }
    Ok(sorted)
}

} // verus!
