//! The `<Shape>` element of an added shape: its cells grouped into sections and rows, its text
//! and its children.
use vstd::prelude::*;
use vstd::string::*;

use std::collections::BTreeMap;

use crate::model::{CellRow, CellSnapshot, ShapeSnapshot};
use crate::text::{decimal, push_decimal, push_str, str_eq};
use crate::xml::{
    attribute, cell_xml, cell_xml_of, push_attribute, remap_view, text_token_xml, tokens_xml,
    xml_escape, xml_escaped, TextToken,
};

verus! {

/// A section's identity: its name and its index.
pub open spec fn sec_key(cell: CellSnapshot) -> (Seq<char>, Option<u32>) {
    (cell.locator.section.unwrap()@, cell.locator.section_index)
}

/// The cell lies in section `key`.
pub open spec fn in_section(cell: CellSnapshot, key: (Seq<char>, Option<u32>)) -> bool {
    cell.locator.section is Some && sec_key(cell) == key
}

/// A row as a plain value: no row, a row index, or a row name.
pub open spec fn row_view(row: Option<CellRow>) -> (u8, u32, Seq<char>) {
    match row {
        None => (0u8, 0u32, Seq::empty()),
        Some(CellRow::Index(index)) => (1u8, index, Seq::empty()),
        Some(CellRow::Name(name)) => (2u8, 0u32, name@),
    }
}

/// The sections of the cells, each once, in order of first appearance.
pub open spec fn section_keys(cells: Seq<CellSnapshot>) -> Seq<(Seq<char>, Option<u32>)>
    decreases cells.len(),
{
    if cells.len() == 0 {
        Seq::empty()
    } else {
        let keys = section_keys(cells.drop_last());
        let cell = cells.last();
        if cell.locator.section is Some && !keys.contains(sec_key(cell)) {
            keys.push(sec_key(cell))
        } else {
            keys
        }
    }
}

/// The rows of section `key`, each once, in order of first appearance.
pub open spec fn row_keys(cells: Seq<CellSnapshot>, key: (Seq<char>, Option<u32>)) -> Seq<
    (u8, u32, Seq<char>),
>
    decreases cells.len(),
{
    if cells.len() == 0 {
        Seq::empty()
    } else {
        let rows = row_keys(cells.drop_last(), key);
        let cell = cells.last();
        if in_section(cell, key) && !rows.contains(row_view(cell.locator.row)) {
            rows.push(row_view(cell.locator.row))
        } else {
            rows
        }
    }
}

/// The cells of row `row` of section `key`, in order.
pub open spec fn cells_at(
    cells: Seq<CellSnapshot>,
    key: (Seq<char>, Option<u32>),
    row: (u8, u32, Seq<char>),
) -> Seq<CellSnapshot>
    decreases cells.len(),
{
    if cells.len() == 0 {
        Seq::empty()
    } else {
        let rest = cells_at(cells.drop_last(), key, row);
        let cell = cells.last();
        if in_section(cell, key) && row_view(cell.locator.row) == row {
            rest.push(cell)
        } else {
            rest
        }
    }
}

/// The first row type any of the cells declares.
pub open spec fn first_row_type(cells: Seq<CellSnapshot>) -> Option<Seq<char>>
    decreases cells.len(),
{
    if cells.len() == 0 {
        None
    } else {
        match first_row_type(cells.drop_last()) {
            Some(row_type) => Some(row_type),
            None => match cells.last().row_type {
                Some(row_type) => Some(row_type@),
                None => None,
            },
        }
    }
}

/// The `<Cell/>` elements of the cells, in order.
pub open spec fn cells_xml(cells: Seq<CellSnapshot>, remap: Option<Map<u32, u32>>) -> Seq<char>
    decreases cells.len(),
{
    if cells.len() == 0 {
        Seq::empty()
    } else {
        cells_xml(cells.drop_last(), remap) + cell_xml_of(cells.last(), remap)
    }
}

/// The `<Cell/>` elements of the cells outside any section, in order.
pub open spec fn loose_cells_xml(cells: Seq<CellSnapshot>, remap: Option<Map<u32, u32>>) -> Seq<
    char,
>
    decreases cells.len(),
{
    if cells.len() == 0 {
        Seq::empty()
    } else {
        loose_cells_xml(cells.drop_last(), remap) + if cells.last().locator.section is None {
            cell_xml_of(cells.last(), remap)
        } else {
            Seq::empty()
        }
    }
}

/// The attributes naming a row: its index or its name.
pub open spec fn row_attributes(row: (u8, u32, Seq<char>)) -> Seq<char> {
    if row.0 == 1 {
        " IX=\""@ + decimal(row.1 as nat) + "\""@
    } else if row.0 == 2 {
        attribute("N"@, row.2)
    } else {
        Seq::empty()
    }
}

/// The `<Row>` element of row `row` of section `key`.
pub open spec fn row_xml(
    cells: Seq<CellSnapshot>,
    key: (Seq<char>, Option<u32>),
    row: (u8, u32, Seq<char>),
    remap: Option<Map<u32, u32>>,
) -> Seq<char> {
    let members = cells_at(cells, key, row);
    "<Row"@ + row_attributes(row) + match first_row_type(members) {
        Some(row_type) => attribute("T"@, row_type),
        None => Seq::empty(),
    } + ">"@ + cells_xml(members, remap) + "</Row>"@
}

/// The `<Row>` elements of the given rows of section `key`.
pub open spec fn rows_xml(
    cells: Seq<CellSnapshot>,
    key: (Seq<char>, Option<u32>),
    rows: Seq<(u8, u32, Seq<char>)>,
    remap: Option<Map<u32, u32>>,
) -> Seq<char>
    decreases rows.len(),
{
    if rows.len() == 0 {
        Seq::empty()
    } else {
        rows_xml(cells, key, rows.drop_last(), remap) + row_xml(cells, key, rows.last(), remap)
    }
}

/// The opening tag of section `key`.
pub open spec fn section_open(key: (Seq<char>, Option<u32>)) -> Seq<char> {
    "<Section N=\""@ + xml_escaped(key.0) + match key.1 {
        Some(index) => "\" IX=\""@ + decimal(index as nat),
        None => Seq::empty(),
    } + "\">"@
}

/// The `<Section>` element of section `key`, with its rows in order of first appearance.
pub open spec fn section_xml(
    cells: Seq<CellSnapshot>,
    key: (Seq<char>, Option<u32>),
    remap: Option<Map<u32, u32>>,
) -> Seq<char> {
    section_open(key) + rows_xml(cells, key, row_keys(cells, key), remap) + "</Section>"@
}

/// The `<Section>` elements of the given sections.
pub open spec fn sections_xml(
    cells: Seq<CellSnapshot>,
    keys: Seq<(Seq<char>, Option<u32>)>,
    remap: Option<Map<u32, u32>>,
) -> Seq<char>
    decreases keys.len(),
{
    if keys.len() == 0 {
        Seq::empty()
    } else {
        sections_xml(cells, keys.drop_last(), remap) + section_xml(cells, keys.last(), remap)
    }
}

/// The value an association list of insertions leaves for `key`: the last one.
pub open spec fn assoc_last<V>(entries: Seq<(Seq<char>, V)>, key: Seq<char>) -> Option<V>
    decreases entries.len(),
{
    if entries.len() == 0 {
        None
    } else if entries.last().0 == key {
        Some(entries.last().1)
    } else {
        assoc_last(entries.drop_last(), key)
    }
}

/// Shape texts by shape ID, as plain values.
pub open spec fn texts_view(texts: Seq<(String, String)>) -> Seq<(Seq<char>, Seq<char>)> {
    texts.map_values(|entry: (String, String)| (entry.0@, entry.1@))
}

/// Verbatim text tokens by shape ID, as plain values.
pub open spec fn verbatim_view(verbatim: Seq<(String, Vec<TextToken>)>) -> Seq<
    (Seq<char>, Seq<TextToken>),
> {
    verbatim.map_values(|entry: (String, Vec<TextToken>)| (entry.0@, entry.1@))
}

/// The `<Text>` element of a shape: its verbatim tokens when it has some, else its plain text
/// when not empty, else nothing.
pub open spec fn text_xml(
    id: Seq<char>,
    texts: Seq<(Seq<char>, Seq<char>)>,
    verbatim: Seq<(Seq<char>, Seq<TextToken>)>,
) -> Seq<char> {
    match assoc_last(verbatim, id) {
        Some(tokens) if tokens.len() > 0 => "<Text>"@ + tokens_xml(tokens) + "</Text>"@,
        _ => match assoc_last(texts, id) {
            Some(text) if text.len() > 0 => "<Text>"@ + xml_escaped(text) + "</Text>"@,
            _ => Seq::empty(),
        },
    }
}

/// The opening tag of a shape: `Group` when it has children, its ID, master and name.
pub open spec fn shape_open(shape: ShapeSnapshot) -> Seq<char> {
    "<Shape Type=\""@ + (if shape.children@.len() == 0 {
        "Shape"@
    } else {
        "Group"@
    }) + "\" ID=\""@ + decimal(shape.source_id as nat) + "\""@ + match shape.master {
        Some(master) => " Master=\""@ + decimal(master as nat) + "\""@,
        None => Seq::empty(),
    } + match shape.name {
        Some(name) => attribute("Name"@, name@),
        None => Seq::empty(),
    } + ">"@
}

/// The `<Shape>` element of `shape`, given the XML of its children.
pub open spec fn shape_xml_with(
    shape: ShapeSnapshot,
    children: Seq<char>,
    texts: Seq<(Seq<char>, Seq<char>)>,
    verbatim: Seq<(Seq<char>, Seq<TextToken>)>,
    remap: Option<Map<u32, u32>>,
) -> Seq<char> {
    shape_open(shape) + loose_cells_xml(shape.cells@, remap) + sections_xml(
        shape.cells@,
        section_keys(shape.cells@),
        remap,
    ) + text_xml(shape.id@, texts, verbatim) + (if shape.children@.len() == 0 {
        Seq::empty()
    } else {
        "<Shapes>"@ + children + "</Shapes>"@
    }) + "</Shape>"@
}

/// The `<Shape>` elements of the shapes, in order, each with its children nested.
pub open spec fn shapes_xml(
    shapes: Seq<ShapeSnapshot>,
    texts: Seq<(Seq<char>, Seq<char>)>,
    verbatim: Seq<(Seq<char>, Seq<TextToken>)>,
    remap: Option<Map<u32, u32>>,
) -> Seq<char>
    decreases shapes,
{
    if shapes.len() == 0 {
        Seq::empty()
    } else {
        let shape = shapes.last();
        shapes_xml(shapes.drop_last(), texts, verbatim, remap) + shape_xml_with(
            shape,
            shapes_xml(shape.children@, texts, verbatim, remap),
            texts,
            verbatim,
            remap,
        )
    }
}

/// The XML of a list of shapes is the XML of its parts in order: splitting the list splits
/// its XML, so each shape's element comes after every element of the shapes before it.
pub proof fn lemma_shapes_xml_concat(
    first: Seq<ShapeSnapshot>,
    second: Seq<ShapeSnapshot>,
    texts: Seq<(Seq<char>, Seq<char>)>,
    verbatim: Seq<(Seq<char>, Seq<TextToken>)>,
    remap: Option<Map<u32, u32>>,
)
    ensures
        shapes_xml(first + second, texts, verbatim, remap) == shapes_xml(first, texts, verbatim, remap)
            + shapes_xml(second, texts, verbatim, remap),
    decreases second.len(),
{
    if second.len() == 0 {
        assert(first + second =~= first);
        assert(shapes_xml(first, texts, verbatim, remap) + Seq::<char>::empty() =~= shapes_xml(
            first,
            texts,
            verbatim,
            remap,
        ));
    } else {
        let whole = first + second;
        assert(whole.drop_last() =~= first + second.drop_last());
        assert(whole.last() == second.last());
        lemma_shapes_xml_concat(first, second.drop_last(), texts, verbatim, remap);
        let last = shape_xml_with(
            second.last(),
            shapes_xml(second.last().children@, texts, verbatim, remap),
            texts,
            verbatim,
            remap,
        );
        assert(shapes_xml(first, texts, verbatim, remap) + shapes_xml(second.drop_last(), texts, verbatim, remap)
            + last =~= shapes_xml(first, texts, verbatim, remap) + (shapes_xml(
            second.drop_last(),
            texts,
            verbatim,
            remap,
        ) + last));
    }
}

/// The `<Shapes>` body of a group lists its children's elements in the children's order: the
/// element of child `i` stands right after the elements of children `0..i` and right before
/// those of the children after it.
pub proof fn lemma_children_in_order(
    children: Seq<ShapeSnapshot>,
    i: int,
    texts: Seq<(Seq<char>, Seq<char>)>,
    verbatim: Seq<(Seq<char>, Seq<TextToken>)>,
    remap: Option<Map<u32, u32>>,
)
    requires
        0 <= i < children.len(),
    ensures
        shapes_xml(children, texts, verbatim, remap) == shapes_xml(children.take(i), texts, verbatim, remap)
            + shape_xml_with(
            children[i],
            shapes_xml(children[i].children@, texts, verbatim, remap),
            texts,
            verbatim,
            remap,
        ) + shapes_xml(children.skip(i + 1), texts, verbatim, remap),
{
    let one = seq![children[i]];
    assert(children =~= children.take(i) + one + children.skip(i + 1));
    lemma_shapes_xml_concat(children.take(i) + one, children.skip(i + 1), texts, verbatim, remap);
    lemma_shapes_xml_concat(children.take(i), one, texts, verbatim, remap);
    assert(one.drop_last() =~= Seq::<ShapeSnapshot>::empty());
    assert(one.last() == children[i]);
    assert(shapes_xml(one.drop_last(), texts, verbatim, remap) == Seq::<char>::empty());
    assert(shapes_xml(one, texts, verbatim, remap) =~= Seq::<char>::empty() + shape_xml_with(
        children[i],
        shapes_xml(children[i].children@, texts, verbatim, remap),
        texts,
        verbatim,
        remap,
    ));
}

/// Whether two rows are the same row.
fn rows_eq(a: &Option<CellRow>, b: &Option<CellRow>) -> (result: bool)
    ensures
        result == (row_view(*a) == row_view(*b)),
{
    match (a, b) {
        (None, None) => true,
        (Some(CellRow::Index(x)), Some(CellRow::Index(y))) => *x == *y,
        (Some(CellRow::Name(x)), Some(CellRow::Name(y))) => str_eq(x.as_str(), y.as_str()),
        _ => false,
    }
}

/// Whether a cell lies in the section of `key_cell`.
fn in_section_of(cell: &CellSnapshot, key_cell: &CellSnapshot) -> (result: bool)
    requires
        key_cell.locator.section is Some,
    ensures
        result == in_section(*cell, sec_key(*key_cell)),
{
    match (&cell.locator.section, &key_cell.locator.section) {
        (Some(x), Some(y)) => {
            if !str_eq(x.as_str(), y.as_str()) {
                return false;
            }
            match (cell.locator.section_index, key_cell.locator.section_index) {
                (None, None) => true,
                (Some(i), Some(j)) => i == j,
                _ => false,
            }
        },
        _ => false,
    }
}

/// Appends the `<Cell/>` elements of the cells outside any section.
fn push_loose_cells(output: &mut String, cells: &Vec<CellSnapshot>, remap: Option<&BTreeMap<u32, u32>>)
    ensures
        final(output)@ == old(output)@ + loose_cells_xml(cells@, remap_view(remap)),
{
    let mut i: usize = 0;
    while i < cells.len()
        invariant
            i <= cells@.len(),
            output@ == old(output)@ + loose_cells_xml(cells@.take(i as int), remap_view(remap)),
        decreases cells.len() - i,
    {
        assert(cells@.take(i + 1).drop_last() == cells@.take(i as int));
        if cells[i].locator.section.is_none() {
            cell_xml(output, &cells[i], remap);
        }
        i = i + 1;
    }
    assert(cells@.take(cells@.len() as int) == cells@);
}

/// The first cell of each section, in order of first appearance.
fn section_reps(cells: &Vec<CellSnapshot>) -> (reps: Vec<usize>)
    ensures
        forall|j: int|
            0 <= j < reps@.len() ==> #[trigger] reps@[j] < cells@.len() && cells@[reps@[j] as int].locator.section is Some,
        reps@.map_values(|r: usize| sec_key(cells@[r as int])) == section_keys(cells@),
{
    let mut reps: Vec<usize> = Vec::new();
    let mut i: usize = 0;
    while i < cells.len()
        invariant
            i <= cells@.len(),
            forall|j: int|
                0 <= j < reps@.len() ==> #[trigger] reps@[j] < i && cells@[reps@[j] as int].locator.section is Some,
            reps@.map_values(|r: usize| sec_key(cells@[r as int])) == section_keys(
                cells@.take(i as int),
            ),
        decreases cells.len() - i,
    {
        let ghost keys = reps@.map_values(|r: usize| sec_key(cells@[r as int]));
        assert(cells@.take(i + 1).drop_last() == cells@.take(i as int));
        assert(cells@.take(i + 1).last() == cells@[i as int]);
        if cells[i].locator.section.is_some() {
            let mut found = false;
            let mut j: usize = 0;
            while j < reps.len()
                invariant
                    j <= reps@.len(),
                    i < cells@.len(),
                    cells@[i as int].locator.section is Some,
                    forall|t: int|
                        0 <= t < reps@.len() ==> #[trigger] reps@[t] < i && cells@[reps@[t] as int].locator.section is Some,
                    keys == reps@.map_values(|r: usize| sec_key(cells@[r as int])),
                    found == exists|t: int| 0 <= t < j && keys[t] == sec_key(cells@[i as int]),
                decreases reps.len() - j,
            {
                if in_section_of(&cells[i], &cells[reps[j]]) {
                    found = true;
                }
                assert(keys[j as int] == sec_key(cells@[reps@[j as int] as int]));
                j = j + 1;
            }
            assert(found == keys.contains(sec_key(cells@[i as int])));
            if !found {
                reps.push(i);
                assert(reps@.map_values(|r: usize| sec_key(cells@[r as int])) == keys.push(
                    sec_key(cells@[i as int]),
                ));
            }
        }
        i = i + 1;
    }
    assert(cells@.take(cells@.len() as int) == cells@);
    reps
}

/// The first cell of each row of the section of `cells[kc]`, in order of first appearance.
fn row_reps(cells: &Vec<CellSnapshot>, kc: usize) -> (reps: Vec<usize>)
    requires
        kc < cells@.len(),
        cells@[kc as int].locator.section is Some,
    ensures
        forall|j: int| 0 <= j < reps@.len() ==> #[trigger] reps@[j] < cells@.len(),
        reps@.map_values(|r: usize| row_view(cells@[r as int].locator.row)) == row_keys(
            cells@,
            sec_key(cells@[kc as int]),
        ),
{
    let ghost key = sec_key(cells@[kc as int]);
    let mut reps: Vec<usize> = Vec::new();
    let mut i: usize = 0;
    while i < cells.len()
        invariant
            i <= cells@.len(),
            kc < cells@.len(),
            cells@[kc as int].locator.section is Some,
            key == sec_key(cells@[kc as int]),
            forall|j: int| 0 <= j < reps@.len() ==> #[trigger] reps@[j] < i,
            reps@.map_values(|r: usize| row_view(cells@[r as int].locator.row)) == row_keys(
                cells@.take(i as int),
                key,
            ),
        decreases cells.len() - i,
    {
        let ghost rows = reps@.map_values(|r: usize| row_view(cells@[r as int].locator.row));
        assert(cells@.take(i + 1).drop_last() == cells@.take(i as int));
        assert(cells@.take(i + 1).last() == cells@[i as int]);
        if in_section_of(&cells[i], &cells[kc]) {
            let mut found = false;
            let mut j: usize = 0;
            while j < reps.len()
                invariant
                    j <= reps@.len(),
                    i < cells@.len(),
                    kc < cells@.len(),
                    cells@[kc as int].locator.section is Some,
                    forall|t: int| 0 <= t < reps@.len() ==> #[trigger] reps@[t] < i,
                    rows == reps@.map_values(|r: usize| row_view(cells@[r as int].locator.row)),
                    found == exists|t: int|
                        0 <= t < j && rows[t] == row_view(cells@[i as int].locator.row),
                decreases reps.len() - j,
            {
                if rows_eq(&cells[i].locator.row, &cells[reps[j]].locator.row) {
                    found = true;
                }
                assert(rows[j as int] == row_view(cells@[reps@[j as int] as int].locator.row));
                j = j + 1;
            }
            assert(found == rows.contains(row_view(cells@[i as int].locator.row)));
            if !found {
                reps.push(i);
                assert(reps@.map_values(|r: usize| row_view(cells@[r as int].locator.row))
                    == rows.push(row_view(cells@[i as int].locator.row)));
            }
        }
        i = i + 1;
    }
    assert(cells@.take(cells@.len() as int) == cells@);
    reps
}

/// Appends the `<Row>` element of the row of `cells[rc]` in the section of `cells[kc]`.
fn push_row(
    output: &mut String,
    cells: &Vec<CellSnapshot>,
    kc: usize,
    rc: usize,
    remap: Option<&BTreeMap<u32, u32>>,
)
    requires
        kc < cells@.len(),
        rc < cells@.len(),
        cells@[kc as int].locator.section is Some,
    ensures
        final(output)@ == old(output)@ + row_xml(
            cells@,
            sec_key(cells@[kc as int]),
            row_view(cells@[rc as int].locator.row),
            remap_view(remap),
        ),
{
    let ghost key = sec_key(cells@[kc as int]);
    let ghost row = row_view(cells@[rc as int].locator.row);
    let ghost members = cells_at(cells@, key, row);
    push_str(output, "<Row");
    match &cells[rc].locator.row {
        Some(CellRow::Index(index)) => {
            push_str(output, " IX=\"");
            push_decimal(output, *index as u64);
            push_str(output, "\"");
        },
        Some(CellRow::Name(name)) => {
            push_attribute(output, "N", name.as_str());
        },
        None => {},
    }
    let ghost attributes = output@;
    assert(attributes =~= old(output)@ + "<Row"@ + row_attributes(row));
    let mut typed: Option<usize> = None;
    let mut i: usize = 0;
    while i < cells.len()
        invariant
            i <= cells@.len(),
            kc < cells@.len(),
            rc < cells@.len(),
            cells@[kc as int].locator.section is Some,
            key == sec_key(cells@[kc as int]),
            row == row_view(cells@[rc as int].locator.row),
            match typed {
                Some(t) => t < cells@.len() && cells@[t as int].row_type is Some && first_row_type(
                    cells_at(cells@.take(i as int), key, row),
                ) == Some(cells@[t as int].row_type.unwrap()@),
                None => first_row_type(cells_at(cells@.take(i as int), key, row)) is None,
            },
        decreases cells.len() - i,
    {
        assert(cells@.take(i + 1).drop_last() == cells@.take(i as int));
        assert(cells@.take(i + 1).last() == cells@[i as int]);
        let ghost before = cells_at(cells@.take(i as int), key, row);
        let matches = in_section_of(&cells[i], &cells[kc]) && rows_eq(
            &cells[i].locator.row,
            &cells[rc].locator.row,
        );
        if matches {
            assert(cells_at(cells@.take(i + 1), key, row) == before.push(cells@[i as int]));
            assert(before.push(cells@[i as int]).drop_last() == before);
            if typed.is_none() && cells[i].row_type.is_some() {
                typed = Some(i);
            }
        }
        i = i + 1;
    }
    assert(cells@.take(cells@.len() as int) == cells@);
    assert(cells_at(cells@.take(cells@.len() as int), key, row) == members);
    match typed {
        Some(t) => {
            match &cells[t].row_type {
                Some(row_type) => {
                    push_attribute(output, "T", row_type.as_str());
                },
                None => {},
            }
        },
        None => {},
    }
    push_str(output, ">");
    let ghost opened = output@;
    assert(opened =~= attributes + match first_row_type(members) {
        Some(row_type) => attribute("T"@, row_type),
        None => Seq::empty(),
    } + ">"@);
    let mut i: usize = 0;
    while i < cells.len()
        invariant
            i <= cells@.len(),
            kc < cells@.len(),
            rc < cells@.len(),
            cells@[kc as int].locator.section is Some,
            key == sec_key(cells@[kc as int]),
            row == row_view(cells@[rc as int].locator.row),
            output@ == opened + cells_xml(cells_at(cells@.take(i as int), key, row), remap_view(remap)),
        decreases cells.len() - i,
    {
        assert(cells@.take(i + 1).drop_last() == cells@.take(i as int));
        assert(cells@.take(i + 1).last() == cells@[i as int]);
        let ghost before = cells_at(cells@.take(i as int), key, row);
        if in_section_of(&cells[i], &cells[kc]) && rows_eq(&cells[i].locator.row, &cells[rc].locator.row) {
            assert(cells_at(cells@.take(i + 1), key, row) == before.push(cells@[i as int]));
            assert(before.push(cells@[i as int]).drop_last() == before);
            cell_xml(output, &cells[i], remap);
        }
        i = i + 1;
    }
    assert(cells@.take(cells@.len() as int) == cells@);
    push_str(output, "</Row>");
    assert(output@ =~= old(output)@ + row_xml(cells@, key, row, remap_view(remap)));
}

/// Appends the `<Section>` element of the section of `cells[kc]`.
fn push_section(output: &mut String, cells: &Vec<CellSnapshot>, kc: usize, remap: Option<&BTreeMap<u32, u32>>)
    requires
        kc < cells@.len(),
        cells@[kc as int].locator.section is Some,
    ensures
        final(output)@ == old(output)@ + section_xml(cells@, sec_key(cells@[kc as int]), remap_view(remap)),
{
    let ghost key = sec_key(cells@[kc as int]);
    push_str(output, "<Section N=\"");
    match &cells[kc].locator.section {
        Some(name) => xml_escape(output, name.as_str()),
        None => {},
    }
    match cells[kc].locator.section_index {
        Some(index) => {
            push_str(output, "\" IX=\"");
            push_decimal(output, index as u64);
        },
        None => {},
    }
    push_str(output, "\">");
    assert(output@ == old(output)@ + section_open(key));
    let reps = row_reps(cells, kc);
    let ghost rows = row_keys(cells@, key);
    let ghost opened = output@;
    let mut r: usize = 0;
    while r < reps.len()
        invariant
            r <= reps@.len(),
            kc < cells@.len(),
            cells@[kc as int].locator.section is Some,
            key == sec_key(cells@[kc as int]),
            forall|j: int| 0 <= j < reps@.len() ==> #[trigger] reps@[j] < cells@.len(),
            reps@.map_values(|x: usize| row_view(cells@[x as int].locator.row)) == rows,
            output@ == opened + rows_xml(cells@, key, rows.take(r as int), remap_view(remap)),
        decreases reps.len() - r,
    {
        assert(rows.take(r + 1).drop_last() == rows.take(r as int));
        assert(rows.take(r + 1).last() == rows[r as int]);
        assert(rows[r as int] == row_view(cells@[reps@[r as int] as int].locator.row));
        push_row(output, cells, kc, reps[r], remap);
        r = r + 1;
    }
    assert(rows.take(rows.len() as int) == rows);
    push_str(output, "</Section>");
}

/// Appends the `<Section>` elements of the cells, sections in order of first appearance.
fn push_sections(output: &mut String, cells: &Vec<CellSnapshot>, remap: Option<&BTreeMap<u32, u32>>)
    ensures
        final(output)@ == old(output)@ + sections_xml(cells@, section_keys(cells@), remap_view(remap)),
{
    let reps = section_reps(cells);
    let ghost keys = section_keys(cells@);
    let mut s: usize = 0;
    while s < reps.len()
        invariant
            s <= reps@.len(),
            forall|j: int|
                0 <= j < reps@.len() ==> #[trigger] reps@[j] < cells@.len() && cells@[reps@[j] as int].locator.section is Some,
            reps@.map_values(|r: usize| sec_key(cells@[r as int])) == keys,
            output@ == old(output)@ + sections_xml(cells@, keys.take(s as int), remap_view(remap)),
        decreases reps.len() - s,
    {
        assert(keys.take(s + 1).drop_last() == keys.take(s as int));
        assert(keys.take(s + 1).last() == keys[s as int]);
        assert(keys[s as int] == sec_key(cells@[reps@[s as int] as int]));
        push_section(output, cells, reps[s], remap);
        s = s + 1;
    }
    assert(keys.take(keys.len() as int) == keys);
}

/// Position of the last entry for `id` in a list of shape texts.
fn last_text(texts: &[(String, String)], id: &str) -> (result: Option<usize>)
    ensures
        match result {
            Some(j) => j < texts@.len() && assoc_last(texts_view(texts@), id@) == Some(texts@[j as int].1@),
            None => assoc_last(texts_view(texts@), id@) is None,
        },
{
    let ghost all = texts_view(texts@);
    let mut i: usize = texts.len();
    assert(all.take(i as int) == all);
    while i > 0
        invariant
            i <= texts@.len(),
            all == texts_view(texts@),
            assoc_last(all, id@) == assoc_last(all.take(i as int), id@),
        decreases i,
    {
        assert(all.take(i as int).drop_last() == all.take(i - 1));
        assert(all.take(i as int).last() == (texts@[i - 1].0@, texts@[i - 1].1@));
        if str_eq(texts[i - 1].0.as_str(), id) {
            return Some(i - 1);
        }
        i = i - 1;
    }
    None
}

/// Position of the last entry for `id` in a list of verbatim token lists.
fn last_tokens(verbatim: &[(String, Vec<TextToken>)], id: &str) -> (result: Option<usize>)
    ensures
        match result {
            Some(j) => j < verbatim@.len() && assoc_last(verbatim_view(verbatim@), id@) == Some(
                verbatim@[j as int].1@,
            ),
            None => assoc_last(verbatim_view(verbatim@), id@) is None,
        },
{
    let ghost all = verbatim_view(verbatim@);
    let mut i: usize = verbatim.len();
    assert(all.take(i as int) == all);
    while i > 0
        invariant
            i <= verbatim@.len(),
            all == verbatim_view(verbatim@),
            assoc_last(all, id@) == assoc_last(all.take(i as int), id@),
        decreases i,
    {
        assert(all.take(i as int).drop_last() == all.take(i - 1));
        assert(all.take(i as int).last() == (verbatim@[i - 1].0@, verbatim@[i - 1].1@));
        if str_eq(verbatim[i - 1].0.as_str(), id) {
            return Some(i - 1);
        }
        i = i - 1;
    }
    None
}

/// Appends the XML of the tokens, in order.
fn push_tokens(output: &mut String, tokens: &Vec<TextToken>)
    ensures
        final(output)@ == old(output)@ + tokens_xml(tokens@),
{
    let mut i: usize = 0;
    while i < tokens.len()
        invariant
            i <= tokens@.len(),
            output@ == old(output)@ + tokens_xml(tokens@.take(i as int)),
        decreases tokens.len() - i,
    {
        assert(tokens@.take(i + 1).drop_last() == tokens@.take(i as int));
        text_token_xml(output, &tokens[i]);
        i = i + 1;
    }
    assert(tokens@.take(tokens@.len() as int) == tokens@);
}

/// Appends the `<Text>` element of shape `id`.
fn push_text(output: &mut String, id: &str, texts: &[(String, String)], verbatim: &[(String, Vec<TextToken>)])
    ensures
        final(output)@ == old(output)@ + text_xml(id@, texts_view(texts@), verbatim_view(verbatim@)),
{
    match last_tokens(verbatim, id) {
        Some(j) => {
            if verbatim[j].1.len() > 0 {
                push_str(output, "<Text>");
                push_tokens(output, &verbatim[j].1);
                push_str(output, "</Text>");
                return;
            }
        },
        None => {},
    }
    match last_text(texts, id) {
        Some(j) => {
            let text = texts[j].1.as_str();
            if text.unicode_len() > 0 {
                push_str(output, "<Text>");
                xml_escape(output, text);
                push_str(output, "</Text>");
            }
        },
        None => {},
    }
}

/// The `<Shape>` element of an added shape: its attributes, cells outside sections, sections
/// with their rows in order of first appearance, its text (verbatim tokens first, else plain
/// text), and its children, each formula's sheet references remapped when a table is given.
pub fn shape_xml(
    shape: &ShapeSnapshot,
    texts: &[(String, String)],
    verbatim: &[(String, Vec<TextToken>)],
    remap: Option<&BTreeMap<u32, u32>>,
) -> (result: String)
    ensures
        result@ == shape_xml_with(
            *shape,
            shapes_xml(shape.children@, texts_view(texts@), verbatim_view(verbatim@), remap_view(remap)),
            texts_view(texts@),
            verbatim_view(verbatim@),
            remap_view(remap),
        ),
    decreases shape,
{
    let ghost tv = texts_view(texts@);
    let ghost vv = verbatim_view(verbatim@);
    let ghost rv = remap_view(remap);
    let mut output = String::new();
    push_str(&mut output, "<Shape Type=\"");
    if shape.children.len() == 0 {
        push_str(&mut output, "Shape");
    } else {
        push_str(&mut output, "Group");
    }
    push_str(&mut output, "\" ID=\"");
    push_decimal(&mut output, shape.source_id as u64);
    push_str(&mut output, "\"");
    match shape.master {
        Some(master) => {
            push_str(&mut output, " Master=\"");
            push_decimal(&mut output, master as u64);
            push_str(&mut output, "\"");
        },
        None => {},
    }
    match &shape.name {
        Some(name) => {
            push_attribute(&mut output, "Name", name.as_str());
        },
        None => {},
    }
    push_str(&mut output, ">");
    assert(output@ =~= shape_open(*shape));
    push_loose_cells(&mut output, &shape.cells, remap);
    push_sections(&mut output, &shape.cells, remap);
    push_text(&mut output, shape.id.as_str(), texts, verbatim);
    let ghost body = output@;
    if shape.children.len() > 0 {
        push_str(&mut output, "<Shapes>");
        let ghost opened = output@;
        let mut i: usize = 0;
        while i < shape.children.len()
            invariant
                i <= shape.children@.len(),
                tv == texts_view(texts@),
                vv == verbatim_view(verbatim@),
                rv == remap_view(remap),
                output@ == opened + shapes_xml(shape.children@.take(i as int), tv, vv, rv),
            decreases shape.children.len() - i,
        {
            let ghost prefix = shape.children@.take(i + 1);
            assert(prefix.drop_last() == shape.children@.take(i as int));
            assert(prefix.last() == shape.children@[i as int]);
            let child = shape_xml(&shape.children[i], texts, verbatim, remap);
            push_str(&mut output, child.as_str());
            i = i + 1;
        }
        assert(shape.children@.take(shape.children@.len() as int) == shape.children@);
        push_str(&mut output, "</Shapes>");
    }
    push_str(&mut output, "</Shape>");
    output
}

} // verus!
