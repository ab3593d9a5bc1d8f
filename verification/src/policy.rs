//! Small decisions of the mutation policy: gestures, locks, refusals, and cell addressing.
use vstd::prelude::*;
use vstd::string::*;

use crate::model::{CellLocator, CellRow, CellSheet, EditError, EditResult, MutationGesture, invalid_state};
use crate::text::{
    chars_of, chars_start_with, eq_ignore_ascii_case, owned, parse_u32, parsed_u32, push_str, range_is,
    skip_equals, starts_with, str_eq, str_eq_ignore_ascii_case, trim, trim_bounds,
    trim_start_equals,
};

verus! {

/// Refusals the policy words as `GUARD ...` come from a guard; every other one from a lock.
pub open spec fn refusal_kind_of(reason: Seq<char>) -> Seq<char> {
    if starts_with(reason, "GUARD"@) {
        "guard"@
    } else {
        "lock"@
    }
}

/// Splits a policy refusal into the two the UI words differently.
pub fn refusal_kind(reason: &str) -> (result: &'static str)
    ensures
        result@ == refusal_kind_of(reason@),
{
    let r = chars_of(reason);
    let g = chars_of("GUARD");
    assert(r@.subrange(0, r@.len() as int) == r@);
    if chars_start_with(&r, 0, &g) {
        "guard"
    } else {
        "lock"
    }
}

/// The gesture a write to a top-level cell stands for.
pub open spec fn gesture_of_cell(cell_name: Seq<char>) -> MutationGesture {
    if cell_name == "PinX"@ {
        MutationGesture::MoveX
    } else if cell_name == "PinY"@ {
        MutationGesture::MoveY
    } else if cell_name == "Width"@ {
        MutationGesture::ResizeWidth
    } else if cell_name == "Height"@ {
        MutationGesture::ResizeHeight
    } else if cell_name == "Angle"@ {
        MutationGesture::Rotate
    } else {
        MutationGesture::CellEdit
    }
}

pub fn gesture_for_cell(cell_name: &str) -> (result: MutationGesture)
    ensures
        result == gesture_of_cell(cell_name@),
{
    if str_eq(cell_name, "PinX") {
        MutationGesture::MoveX
    } else if str_eq(cell_name, "PinY") {
        MutationGesture::MoveY
    } else if str_eq(cell_name, "Width") {
        MutationGesture::ResizeWidth
    } else if str_eq(cell_name, "Height") {
        MutationGesture::ResizeHeight
    } else if str_eq(cell_name, "Angle") {
        MutationGesture::Rotate
    } else {
        MutationGesture::CellEdit
    }
}

/// The cell a lock protects; `LockFormat`, `LockDelete` and unknown names protect none.
pub open spec fn lock_target_of(lock: Seq<char>) -> Option<Seq<char>> {
    if lock == "LockMoveX"@ {
        Some("PinX"@)
    } else if lock == "LockMoveY"@ {
        Some("PinY"@)
    } else if lock == "LockWidth"@ {
        Some("Width"@)
    } else if lock == "LockHeight"@ {
        Some("Height"@)
    } else if lock == "LockAspect"@ {
        Some("Width"@)
    } else if lock == "LockRotate"@ {
        Some("Angle"@)
    } else if lock == "LockTextEdit"@ {
        Some("Text"@)
    } else {
        None
    }
}

/// The gesture a shape lock forbids: `LockMoveX` moving along x, `LockWidth` resizing the
/// width, `LockAspect` resizing with the aspect kept, `LockRotate` rotating, `LockTextEdit`
/// editing text, `LockFormat` formatting and `LockDelete` deleting.
pub open spec fn locked_gesture(lock: Seq<char>) -> Option<MutationGesture> {
    if lock == "LockMoveX"@ {
        Some(MutationGesture::MoveX)
    } else if lock == "LockMoveY"@ {
        Some(MutationGesture::MoveY)
    } else if lock == "LockWidth"@ {
        Some(MutationGesture::ResizeWidth)
    } else if lock == "LockHeight"@ {
        Some(MutationGesture::ResizeHeight)
    } else if lock == "LockAspect"@ {
        Some(MutationGesture::ResizeAspect)
    } else if lock == "LockRotate"@ {
        Some(MutationGesture::Rotate)
    } else if lock == "LockTextEdit"@ {
        Some(MutationGesture::TextEdit)
    } else if lock == "LockFormat"@ {
        Some(MutationGesture::Format)
    } else if lock == "LockDelete"@ {
        Some(MutationGesture::Delete)
    } else {
        None
    }
}

/// Every lock protects the cell its gesture writes: a move, resize or rotation lock protects
/// the cell whose write is that gesture (the aspect lock the width, as the width lock does),
/// the text lock the shape's text; the format and delete locks, and names that are no lock,
/// protect no cell.
pub proof fn lemma_locks_protect_their_gesture_cells(lock: Seq<char>)
    ensures
        match locked_gesture(lock) {
            Some(MutationGesture::MoveX) | Some(MutationGesture::MoveY) | Some(MutationGesture::ResizeWidth)
            | Some(MutationGesture::ResizeHeight) | Some(MutationGesture::Rotate) => lock_target_of(lock) matches Some(
                cell,
            ) && Some(gesture_of_cell(cell)) == locked_gesture(lock),
            Some(MutationGesture::ResizeAspect) => lock_target_of(lock) == lock_target_of("LockWidth"@)
                && lock_target_of(lock) is Some,
            Some(MutationGesture::TextEdit) => lock_target_of(lock) == Some("Text"@),
            _ => lock_target_of(lock) is None,
        },
{
    reveal_strlit("LockMoveX");
    reveal_strlit("LockMoveY");
    reveal_strlit("LockWidth");
    reveal_strlit("LockHeight");
    reveal_strlit("LockAspect");
    reveal_strlit("LockRotate");
    reveal_strlit("LockTextEdit");
    reveal_strlit("LockFormat");
    reveal_strlit("LockDelete");
    reveal_strlit("PinX");
    reveal_strlit("PinY");
    reveal_strlit("Width");
    reveal_strlit("Height");
    reveal_strlit("Angle");
    reveal_strlit("Text");
    assert("LockMoveX"@[4] == 'M' && "LockMoveX"@[8] == 'X');
    assert("LockMoveY"@[4] == 'M' && "LockMoveY"@[8] == 'Y');
    assert("LockWidth"@[4] == 'W');
    assert("LockHeight"@[4] == 'H');
    assert("LockAspect"@[4] == 'A');
    assert("LockRotate"@[4] == 'R');
    assert("LockTextEdit"@[4] == 'T');
    assert("LockFormat"@[4] == 'F');
    assert("LockDelete"@[4] == 'D');
    assert("PinX"@[0] == 'P' && "PinX"@[3] == 'X');
    assert("PinY"@[0] == 'P' && "PinY"@[3] == 'Y');
    assert("Width"@[0] == 'W');
    assert("Height"@[0] == 'H');
    assert("Angle"@[0] == 'A');
}

pub open spec fn static_str_view(s: Option<&'static str>) -> Option<Seq<char>> {
    match s {
        Some(s) => Some(s@),
        None => None,
    }
}

pub fn lock_target(lock: &str) -> (result: Option<&'static str>)
    ensures
        static_str_view(result) == lock_target_of(lock@),
{
    if str_eq(lock, "LockMoveX") {
        Some("PinX")
    } else if str_eq(lock, "LockMoveY") {
        Some("PinY")
    } else if str_eq(lock, "LockWidth") {
        Some("Width")
    } else if str_eq(lock, "LockHeight") {
        Some("Height")
    } else if str_eq(lock, "LockAspect") {
        Some("Width")
    } else if str_eq(lock, "LockRotate") {
        Some("Angle")
    } else if str_eq(lock, "LockTextEdit") {
        Some("Text")
    } else {
        None
    }
}

/// `Width` or `Height` in any ASCII case.
pub fn is_size_cell(name: &str) -> (result: bool)
    ensures
        result == (eq_ignore_ascii_case(name@, "Width"@) || eq_ignore_ascii_case(
            name@,
            "Height"@,
        )),
{
    str_eq_ignore_ascii_case(name, "Width") || str_eq_ignore_ascii_case(name, "Height")
}

/// A shape-data `Type` code with its surrounding blanks and leading `=` dropped.
pub open spec fn type_code_core(code: Seq<char>) -> Seq<char> {
    trim(trim_start_equals(trim(code)))
}

/// Typed shape-data rows whose value a text write would lose: date, duration, currency.
pub open spec fn type_refusal_of(type_code: Option<Seq<char>>) -> Option<Seq<char>> {
    match type_code {
        Some(code) => if type_code_core(code) == "5"@ {
            Some("date"@)
        } else if type_code_core(code) == "6"@ {
            Some("duration"@)
        } else if type_code_core(code) == "7"@ {
            Some("currency"@)
        } else {
            None
        },
        None => None,
    }
}

pub open spec fn str_option_view(s: Option<&str>) -> Option<Seq<char>> {
    match s {
        Some(s) => Some(s@),
        None => None,
    }
}

/// The kind of typed shape-data row that refuses a text write, if the row's type is one.
pub fn shape_data_type_refusal(type_code: Option<&str>) -> (result: Option<&'static str>)
    ensures
        static_str_view(result) == type_refusal_of(str_option_view(type_code)),
{
    let code = match type_code {
        Some(code) => code,
        None => return None,
    };
    let chars = chars_of(code);
    let (a, b) = trim_bounds(&chars, 0, chars.len());
    let c = skip_equals(&chars, a, b);
    let (d, e) = trim_bounds(&chars, c, b);
    assert(chars@.subrange(0, chars@.len() as int) == chars@);
    assert(chars@.subrange(d as int, e as int) == type_code_core(code@));
    if range_is(&chars, d, e, "5") {
        Some("date")
    } else if range_is(&chars, d, e, "6") {
        Some("duration")
    } else if range_is(&chars, d, e, "7") {
        Some("currency")
    } else {
        None
    }
}

/// The part of `s` before the first `c`, or all of `s` when it holds no `c`.
pub open spec fn before_first(s: Seq<char>, c: char) -> Seq<char>
    decreases s.len(),
{
    if s.len() == 0 {
        s
    } else if s[0] == c {
        Seq::empty()
    } else {
        seq![s[0]] + before_first(s.drop_first(), c)
    }
}

/// The shape ID preceding the first slash in a `shape/cell` formula key.
pub fn shape_id_prefix(key: &str) -> (result: &str)
    ensures
        result@ == before_first(key@, '/'),
{
    let chars = chars_of(key);
    let mut i: usize = 0;
    assert(chars@.take(0) + before_first(chars@.subrange(0, chars@.len() as int), '/')
        == before_first(key@, '/')) by {
        assert(chars@.subrange(0, chars@.len() as int) == chars@);
        assert(chars@.take(0) + before_first(chars@, '/') == before_first(chars@, '/'));
    }
    while i < chars.len() && chars[i] != '/'
        invariant
            chars@ == key@,
            i <= chars@.len(),
            before_first(key@, '/') == chars@.take(i as int) + before_first(
                chars@.subrange(i as int, chars@.len() as int),
                '/',
            ),
        decreases chars.len() - i,
    {
        let ghost rest = chars@.subrange(i as int, chars@.len() as int);
        assert(rest.drop_first() == chars@.subrange(i + 1, chars@.len() as int));
        assert(chars@.take(i + 1) == chars@.take(i as int) + seq![rest[0]]);
        i = i + 1;
    }
    if i < chars.len() {
        assert(before_first(chars@.subrange(i as int, chars@.len() as int), '/')
            == Seq::<char>::empty());
    } else {
        assert(chars@.subrange(i as int, chars@.len() as int) == Seq::<char>::empty());
    }
    assert(chars@.take(i as int) == chars@.subrange(0, i as int));
    key.substring_char(0, i)
}

/// The numeric source page a `page:N` session ID names.
pub open spec fn page_number_of(page_id: Seq<char>) -> Option<u32> {
    if starts_with(page_id, "page:"@) {
        parsed_u32(page_id.subrange(5, page_id.len() as int))
    } else {
        None
    }
}

/// Numeric source page behind a `page:N` session ID.
pub fn session_page_number(page_id: &str) -> (result: EditResult<u32>)
    ensures
        match page_number_of(page_id@) {
            Some(n) => result == Ok::<u32, EditError>(n),
            None => result matches Err(EditError::InvalidState(message))
                && message@ == "copy source is missing its page"@,
        },
{
    let chars = chars_of(page_id);
    let prefix = chars_of("page:");
    proof {
        reveal_strlit("page:");
    }
    assert(chars@.subrange(0, chars@.len() as int) == chars@);
    let parsed = if chars_start_with(&chars, 0, &prefix) {
        parse_u32(&chars, 5)
    } else {
        None
    };
    match parsed {
        Some(n) => Ok(n),
        None => Err(invalid_state("copy source is missing its page")),
    }
}

/// The row index the `slot`-th route point is filed under: the filed indices in order,
/// then the ones after the highest, counting up (saturating at `u32::MAX`).
pub open spec fn route_row_index_of(filed: Seq<u32>, slot: int) -> u32 {
    if slot < filed.len() {
        filed[slot]
    } else if filed.len() == 0 {
        slot as u32
    } else {
        let step = (slot - filed.len() + 1) as u32;
        if filed.last() + step > u32::MAX {
            u32::MAX
        } else {
            (filed.last() + step) as u32
        }
    }
}

/// Reuses the filed row indices in order, then appends past the highest one.
pub fn route_row_index(filed: &[u32], slot: usize) -> (result: u32)
    ensures
        result == route_row_index_of(filed@, slot as int),
{
    if slot < filed.len() {
        filed[slot]
    } else if filed.len() == 0 {
        slot as u32
    } else {
        let last = filed[filed.len() - 1];
        last.saturating_add((slot - filed.len() + 1) as u32)
    }
}

/// What a connector's filed Geometry row holds.
pub struct GeometryRow {
    pub row_type: Option<String>,
    pub has_x: bool,
    pub has_y: bool,
}

impl GeometryRow {
    /// Whether the row files the named coordinate; any name but `X` asks for `Y`.
    pub fn has(&self, name: &str) -> (result: bool)
        ensures
            result == if name@ == "X"@ {
                self.has_x
            } else {
                self.has_y
            },
    {
        if str_eq(name, "X") {
            self.has_x
        } else {
            self.has_y
        }
    }
}

/// A copy of a row address.
pub fn clone_row(row: &CellRow) -> (result: CellRow)
    ensures
        result == *row,
{
    match row {
        CellRow::Index(index) => CellRow::Index(*index),
        CellRow::Name(name) => CellRow::Name(name.clone()),
    }
}

/// The `Value` cell of a shape-data row in the `Property` section.
pub fn shape_data_locator(row: &CellRow, section_index: Option<u32>) -> (result: CellLocator)
    ensures
        result.sheet == CellSheet::Page(0),
        result.shape_id is None,
        result.section matches Some(section) && section@ == "Property"@,
        result.section_index == section_index,
        result.row == Some(*row),
        result.cell_name@ == "Value"@,
{
    CellLocator {
        sheet: CellSheet::Page(0),
        shape_id: None,
        section: Some(owned("Property")),
        section_index,
        row: Some(clone_row(row)),
        cell_name: owned("Value"),
    }
}

/// The shape-data `Type` code is the given digit.
fn type_code_is(code: &str, digit: &str) -> (result: bool)
    ensures
        result == (type_code_core(code@) == digit@),
{
    let chars = chars_of(code);
    let (a, b) = trim_bounds(&chars, 0, chars.len());
    let c = skip_equals(&chars, a, b);
    let (d, e) = trim_bounds(&chars, c, b);
    assert(chars@.subrange(0, chars@.len() as int) == chars@);
    assert(chars@.subrange(d as int, e as int) == type_code_core(code@));
    range_is(&chars, d, e, digit)
}

/// Why a shape-data write is refused, if it is: an empty formula; a typed row (date, duration,
/// currency) that would lose its value; on a number row, a value that is not a numeric
/// literal, or a row whose current formula is not one.
pub open spec fn shape_data_refusal_of(
    formula: Seq<char>,
    type_code: Option<Seq<char>>,
    formula_is_numeric: bool,
    before_is_numeric: Option<bool>,
) -> Option<Seq<char>> {
    if trim(formula).len() == 0 {
        Some("a shape-data row cannot be set to an empty formula"@)
    } else {
        match type_refusal_of(type_code) {
            Some(kind) => Some(
                "a "@ + kind + " shape-data row keeps its typed value; editing it here would store text"@,
            ),
            None => match type_code {
                Some(code) if type_code_core(code) == "2"@ => if !formula_is_numeric {
                    Some("a number shape-data row takes a numeric value"@)
                } else if before_is_numeric == Some(false) {
                    Some("a number shape-data row holding a formula is not editable as a value"@)
                } else {
                    None
                },
                _ => None,
            },
        }
    }
}

/// Refusal of a shape-data write of `formula` to a row whose `Type` cell reads `type_code`.
/// `formula_is_numeric` says whether the new formula is a numeric literal, and
/// `before_is_numeric` whether the row's current formula, when it has one, is.
pub fn shape_data_refusal(
    formula: &str,
    type_code: Option<&str>,
    formula_is_numeric: bool,
    before_is_numeric: Option<bool>,
) -> (result: Option<String>)
    ensures
        match result {
            Some(reason) => shape_data_refusal_of(
                formula@,
                str_option_view(type_code),
                formula_is_numeric,
                before_is_numeric,
            ) == Some(reason@),
            None => shape_data_refusal_of(
                formula@,
                str_option_view(type_code),
                formula_is_numeric,
                before_is_numeric,
            ) is None,
        },
{
    let chars = chars_of(formula);
    let (a, b) = trim_bounds(&chars, 0, chars.len());
    assert(chars@.subrange(0, chars@.len() as int) == chars@);
    if a == b {
        return Some(owned("a shape-data row cannot be set to an empty formula"));
    }
    match shape_data_type_refusal(type_code) {
        Some(kind) => {
            let mut reason = owned("a ");
            push_str(&mut reason, kind);
            push_str(&mut reason, " shape-data row keeps its typed value; editing it here would store text");
            return Some(reason);
        },
        None => {},
    }
    let numeric = match type_code {
        Some(code) => type_code_is(code, "2"),
        None => false,
    };
    if numeric {
        if !formula_is_numeric {
            return Some(owned("a number shape-data row takes a numeric value"));
        }
        if before_is_numeric == Some(false) {
            return Some(owned("a number shape-data row holding a formula is not editable as a value"));
        }
    }
    None
}

} // verus!
