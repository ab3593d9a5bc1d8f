//! Connector glue: which end of a connector is glued to which cell of which shape.
use vstd::prelude::*;

use crate::model::{PageSnapshot, ShapeSnapshot};
use crate::text::{
    chars_of, chars_start_with, lemma_utf8_len_grows, parse_u32, parsed_u32, push_str, starts_with,
    str_eq, utf8_len, utf8_width_of,
};

verus! {

/// The end of a connector that glue binds.
#[derive(Clone, Copy, Debug, PartialEq, Eq, Hash, Structural)]
pub enum GlueEndpoint {
    Begin,
    End,
}

/// The name glue records store for an endpoint.
pub open spec fn endpoint_name(endpoint: GlueEndpoint) -> Seq<char> {
    match endpoint {
        GlueEndpoint::Begin => "begin"@,
        GlueEndpoint::End => "end"@,
    }
}

/// The connector cell an endpoint is glued from.
pub open spec fn endpoint_cell_name(endpoint: GlueEndpoint) -> Seq<char> {
    match endpoint {
        GlueEndpoint::Begin => "BeginX"@,
        GlueEndpoint::End => "EndX"@,
    }
}

/// The endpoint a stored name denotes, if any.
pub open spec fn endpoint_named(value: Seq<char>) -> Option<GlueEndpoint> {
    if value == "begin"@ {
        Some(GlueEndpoint::Begin)
    } else if value == "end"@ {
        Some(GlueEndpoint::End)
    } else {
        None
    }
}

impl GlueEndpoint {
    /// The name stored for this endpoint: `begin` or `end`.
    pub fn name(self) -> (result: &'static str)
        ensures
            result@ == endpoint_name(self),
    {
        match self {
            GlueEndpoint::Begin => "begin",
            GlueEndpoint::End => "end",
        }
    }

    /// The connector cell glued from: `BeginX` or `EndX`.
    pub fn endpoint_cell(self) -> (result: &'static str)
        ensures
            result@ == endpoint_cell_name(self),
    {
        match self {
            GlueEndpoint::Begin => "BeginX",
            GlueEndpoint::End => "EndX",
        }
    }

    /// The endpoint named `value`; only `begin` and `end` name one.
    pub fn parse(value: &str) -> (result: Option<GlueEndpoint>)
        ensures
            result == endpoint_named(value@),
    {
        if str_eq(value, "begin") {
            Some(GlueEndpoint::Begin)
        } else if str_eq(value, "end") {
            Some(GlueEndpoint::End)
        } else {
            None
        }
    }
}

/// Reading back the name of an endpoint gives that endpoint, and a name that reads as an
/// endpoint is that endpoint's name.
pub proof fn lemma_endpoint_round_trip(endpoint: GlueEndpoint, value: Seq<char>)
    ensures
        endpoint_named(endpoint_name(endpoint)) == Some(endpoint),
        endpoint_named(value) == Some(endpoint) ==> endpoint_name(endpoint) == value,
{
    reveal_strlit("begin");
    reveal_strlit("end");
    assert("end"@.len() != "begin"@.len());
}

/// The key a glue record is stored under: the connector ID, a colon, the endpoint name.
pub open spec fn glue_key_of(connector_id: Seq<char>, endpoint: GlueEndpoint) -> Seq<char> {
    connector_id + ":"@ + endpoint_name(endpoint)
}

/// The key of the glue record for one end of a connector.
pub fn glue_key(connector_id: &str, endpoint: GlueEndpoint) -> (result: String)
    ensures
        result@ == glue_key_of(connector_id@, endpoint),
{
    let mut key = String::new();
    push_str(&mut key, connector_id);
    push_str(&mut key, ":");
    push_str(&mut key, endpoint.name());
    assert(key@ == connector_id@ + ":"@ + endpoint_name(endpoint));
    key
}

/// Two glue keys are equal only for the same connector and the same endpoint.
pub proof fn lemma_glue_key_injective(a: Seq<char>, ea: GlueEndpoint, b: Seq<char>, eb: GlueEndpoint)
    requires
        glue_key_of(a, ea) == glue_key_of(b, eb),
    ensures
        a == b,
        ea == eb,
{
    reveal_strlit("begin");
    reveal_strlit("end");
    reveal_strlit(":");
    let ka = glue_key_of(a, ea);
    let kb = glue_key_of(b, eb);
    let n = ka.len();
    if ea != eb {
        // the fourth character from the end is `g` after "begin" and `:` before "end"
        assert(ka[n - 4] != kb[n - 4]);
    }
    assert(a =~= ka.subrange(0, a.len() as int));
    assert(b =~= kb.subrange(0, b.len() as int));
}

/// The zero-based connection row a `Connections.X<n>` cell names, `n` counting from one.
pub open spec fn connection_row_of(cell: Seq<char>) -> Option<u32> {
    if starts_with(cell, "Connections.X"@) {
        match parsed_u32(cell.subrange(13, cell.len() as int)) {
            Some(n) => if n >= 1 {
                Some((n - 1) as u32)
            } else {
                None
            },
            None => None,
        }
    } else {
        None
    }
}

/// The connection row a glue target cell names, if it names one.
pub fn connection_row(cell: &str) -> (result: Option<u32>)
    ensures
        result == connection_row_of(cell@),
{
    let chars = chars_of(cell);
    let prefix = chars_of("Connections.X");
    proof {
        reveal_strlit("Connections.X");
    }
    if !chars_start_with(&chars, 0, &prefix) {
        assert(chars@.subrange(0, chars@.len() as int) == chars@);
        return None;
    }
    assert(chars@.subrange(0, chars@.len() as int) == chars@);
    match parse_u32(&chars, 13) {
        Some(n) => n.checked_sub(1),
        None => None,
    }
}

/// A cell glue may target: `PinX`, `PinY`, or a one-based connection point.
pub open spec fn glue_target_ok(cell: Seq<char>) -> bool {
    cell == "PinX"@ || cell == "PinY"@ || connection_row_of(cell) is Some
}

/// Whether glue may target `cell`.
pub fn valid_glue_target(cell: &str) -> (result: bool)
    ensures
        result == glue_target_ok(cell@),
{
    str_eq(cell, "PinX") || str_eq(cell, "PinY") || connection_row(cell).is_some()
}

/// A character XML 1.0 allows in text.
pub open spec fn xml_char(c: char) -> bool {
    let u = c as u32;
    u == 0x9 || u == 0xA || u == 0xD || (0x20 <= u <= 0xD7FF) || (0xE000 <= u <= 0xFFFD) || (
    0x10000 <= u <= 0x10FFFF)
}

/// Glue text is non-empty, fits the attribute limit in UTF-8 bytes, and is XML text.
pub open spec fn glue_text_ok(value: Seq<char>, max_attribute_bytes: usize) -> bool {
    &&& value.len() > 0
    &&& utf8_len(value) <= max_attribute_bytes
    &&& forall|k: int| 0 <= k < value.len() ==> xml_char(#[trigger] value[k])
}

pub(crate) fn is_xml_char(c: char) -> (result: bool)
    ensures
        result == xml_char(c),
{
    let u = c as u32;
    u == 0x9 || u == 0xA || u == 0xD || (0x20 <= u && u <= 0xD7FF) || (0xE000 <= u && u <= 0xFFFD)
        || (0x10000 <= u && u <= 0x10FFFF)
}

/// Whether `value` may be stored as glue text under the given attribute limit.
pub fn glue_text_valid(value: &str, max_attribute_bytes: usize) -> (result: bool)
    ensures
        result == glue_text_ok(value@, max_attribute_bytes),
{
    let chars = chars_of(value);
    if chars.len() == 0 {
        return false;
    }
    let mut total: usize = 0;
    let mut i: usize = 0;
    while i < chars.len()
        invariant
            i <= chars@.len(),
            chars@ == value@,
            total == utf8_len(chars@.take(i as int)),
            total <= max_attribute_bytes,
            forall|k: int| 0 <= k < i ==> xml_char(#[trigger] chars@[k]),
        decreases chars.len() - i,
    {
        let c = chars[i];
        assert(chars@.take(i + 1).drop_last() == chars@.take(i as int));
        let width = utf8_width_of(c);
        if !is_xml_char(c) {
            return false;
        }
        if width > max_attribute_bytes - total {
            proof {
                lemma_utf8_len_grows(chars@, i + 1, chars@.len() as int);
                assert(chars@.take(chars@.len() as int) == chars@);
            }
            return false;
        }
        total = total + width;
        i = i + 1;
    }
    assert(chars@.take(chars@.len() as int) == chars@);
    true
}

/// One glue record of the session: a connector end glued to a cell of a target shape.
#[derive(Clone, Debug, PartialEq, Eq)]
pub struct GlueRecord {
    pub id: String,
    pub page_id: String,
    pub connector_id: String,
    pub endpoint: GlueEndpoint,
    pub target_id: String,
    pub to_cell: String,
}

/// One glue record addressed by the source IDs a projection assigns.
#[derive(Clone, Debug, PartialEq, Eq)]
pub struct PageGlue {
    pub from_sheet: u32,
    pub from_cell: &'static str,
    pub to_sheet: u32,
    pub to_cell: String,
}

/// What a page glue entry says, as plain values.
pub open spec fn page_glue_view(glue: PageGlue) -> (u32, Seq<char>, u32, Seq<char>) {
    (glue.from_sheet, glue.from_cell@, glue.to_sheet, glue.to_cell@)
}

/// A (shape ID, source ID) list as plain values.
pub open spec fn sources_view(sources: Seq<(String, u32)>) -> Seq<(Seq<char>, u32)> {
    sources.map_values(|entry: (String, u32)| (entry.0@, entry.1))
}

/// The source ID a list of (shape ID, source ID) insertions leaves for `id`: the last one.
pub open spec fn source_lookup(sources: Seq<(Seq<char>, u32)>, id: Seq<char>) -> Option<u32>
    decreases sources.len(),
{
    if sources.len() == 0 {
        None
    } else if sources.last().0 == id {
        Some(sources.last().1)
    } else {
        source_lookup(sources.drop_last(), id)
    }
}

/// A record addressed by source IDs, when both its connector and its target have one.
pub open spec fn projected(record: GlueRecord, sources: Seq<(Seq<char>, u32)>) -> Option<
    (u32, Seq<char>, u32, Seq<char>),
> {
    match (source_lookup(sources, record.connector_id@), source_lookup(sources, record.target_id@)) {
        (Some(from), Some(to)) => Some(
            (from, endpoint_cell_name(record.endpoint), to, record.to_cell@),
        ),
        _ => None,
    }
}

/// The source ID recorded last for `id`.
pub fn find_source(sources: &[(String, u32)], id: &str) -> (result: Option<u32>)
    ensures
        result == source_lookup(sources_view(sources@), id@),
{
    let ghost all = sources_view(sources@);
    let mut i: usize = sources.len();
    assert(all.take(i as int) == all);
    while i > 0
        invariant
            i <= sources@.len(),
            all == sources_view(sources@),
            source_lookup(all, id@) == source_lookup(all.take(i as int), id@),
        decreases i,
    {
        let ghost prefix = all.take(i as int);
        assert(prefix.drop_last() == all.take(i - 1));
        assert(prefix.last() == (sources@[i - 1].0@, sources@[i - 1].1));
        if str_eq(sources[i - 1].0.as_str(), id) {
            return Some(sources[i - 1].1);
        }
        i = i - 1;
    }
    None
}

impl GlueRecord {
    /// The record addressed by source IDs, when both its shapes have one in `sources`.
    pub fn project(&self, sources: &[(String, u32)]) -> (result: Option<PageGlue>)
        ensures
            match result {
                Some(glue) => projected(*self, sources_view(sources@)) == Some(page_glue_view(glue)),
                None => projected(*self, sources_view(sources@)) is None,
            },
    {
        let from_sheet = match find_source(sources, self.connector_id.as_str()) {
            Some(source) => source,
            None => return None,
        };
        let to_sheet = match find_source(sources, self.target_id.as_str()) {
            Some(source) => source,
            None => return None,
        };
        Some(
            PageGlue {
                from_sheet,
                from_cell: self.endpoint.endpoint_cell(),
                to_sheet,
                to_cell: self.to_cell.clone(),
            },
        )
    }
}

/// The glue of page `page_id` addressed by source IDs, in record order, leaving out records of
/// other pages and records whose connector or target has no source ID.
pub open spec fn page_glue_of(
    page_id: Seq<char>,
    sources: Seq<(Seq<char>, u32)>,
    glue: Seq<GlueRecord>,
) -> Seq<
    (u32, Seq<char>, u32, Seq<char>),
>
    decreases glue.len(),
{
    if glue.len() == 0 {
        Seq::empty()
    } else {
        let rest = page_glue_of(page_id, sources, glue.drop_last());
        let record = glue.last();
        if record.page_id@ == page_id && projected(record, sources) is Some {
            rest.push(projected(record, sources).unwrap())
        } else {
            rest
        }
    }
}

/// The (shape ID, source ID) insertions of a walk over shapes: the last shape first, each
/// shape before its children, children last first.
pub open spec fn walk_sources(shapes: Seq<ShapeSnapshot>) -> Seq<(Seq<char>, u32)>
    decreases shapes,
{
    if shapes.len() == 0 {
        Seq::empty()
    } else {
        let shape = shapes.last();
        seq![(shape.id@, shape.source_id)] + walk_sources(shape.children@) + walk_sources(
            shapes.drop_last(),
        )
    }
}

/// Appends the walk over `shapes` to `out`.
fn walk_into(out: &mut Vec<(String, u32)>, shapes: &Vec<ShapeSnapshot>)
    ensures
        sources_view(final(out)@) == sources_view(old(out)@) + walk_sources(shapes@),
    decreases shapes@,
{
    let mut i: usize = shapes.len();
    assert(shapes@.take(i as int) == shapes@);
    while i > 0
        invariant
            i <= shapes@.len(),
            sources_view(out@) + walk_sources(shapes@.take(i as int)) == sources_view(old(out)@)
                + walk_sources(shapes@),
        decreases i,
    {
        let shape = &shapes[i - 1];
        let ghost before = out@;
        let ghost rest = shapes@.take(i - 1);
        assert(shapes@.take(i as int).drop_last() == rest);
        assert(shapes@.take(i as int).last() == *shape);
        out.push((shape.id.clone(), shape.source_id));
        let ghost pushed = out@;
        assert(sources_view(pushed) == sources_view(before).push((shape.id@, shape.source_id)));
        walk_into(out, &shape.children);
        assert(sources_view(out@) + walk_sources(rest) == sources_view(before) + walk_sources(
            shapes@.take(i as int),
        ));
        i = i - 1;
    }
    assert(shapes@.take(0) == Seq::<ShapeSnapshot>::empty());
}

/// Every shape of the page, nested ones too, as (shape ID, source ID) in walk order; looking up
/// an ID takes the last entry for it.
pub fn snapshot_shape_sources(page: &PageSnapshot) -> (result: Vec<(String, u32)>)
    ensures
        sources_view(result@) == walk_sources(page.shapes@),
{
    let mut out: Vec<(String, u32)> = Vec::new();
    walk_into(&mut out, &page.shapes);
    assert(sources_view(Seq::<(String, u32)>::empty()) == Seq::<(Seq<char>, u32)>::empty());
    assert(Seq::<(Seq<char>, u32)>::empty() + walk_sources(page.shapes@) == walk_sources(
        page.shapes@,
    ));
    out
}

/// The page's glue addressed by source IDs; glue whose connector or target is gone is left
/// out, including glue a concurrent edit orphaned.
pub fn page_glue(page: &PageSnapshot, glue: &[GlueRecord]) -> (result: Vec<PageGlue>)
    ensures
        result@.map_values(|g: PageGlue| page_glue_view(g)) == page_glue_of(
            page.id@,
            walk_sources(page.shapes@),
            glue@,
        ),
{
    let sources = snapshot_shape_sources(page);
    let mut result: Vec<PageGlue> = Vec::new();
    let mut i: usize = 0;
    while i < glue.len()
        invariant
            i <= glue@.len(),
            sources_view(sources@) == walk_sources(page.shapes@),
            result@.map_values(|g: PageGlue| page_glue_view(g)) == page_glue_of(
                page.id@,
                walk_sources(page.shapes@),
                glue@.take(i as int),
            ),
        decreases glue.len() - i,
    {
        assert(glue@.take(i + 1).drop_last() == glue@.take(i as int));
        assert(glue@.take(i + 1).last() == glue@[i as int]);
        let record = &glue[i];
        if str_eq(record.page_id.as_str(), page.id.as_str()) {
            match record.project(sources.as_slice()) {
                Some(projected_glue) => {
                    result.push(projected_glue);
                },
                None => {},
            }
        }
        i = i + 1;
    }
    assert(glue@.take(glue@.len() as int) == glue@);
    result
}

} // verus!
