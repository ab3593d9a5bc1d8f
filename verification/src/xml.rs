//! VisioXML text for shapes the session adds: escaping, cells, text and whole shapes.
use vstd::prelude::*;

use std::collections::BTreeMap;

use crate::connect::{is_xml_char, xml_char};
use crate::model::invalid_state;
use crate::model::{CellSnapshot, EditError, EditResult, ParseLimits};
use crate::sheet_refs::{remap_sheet_refs, remapped};
use crate::text::{
    chars_of, decimal, lemma_utf8_len_grows, owned, push_char, push_decimal, push_str, utf8_len,
    utf8_width_of,
};

verus! {

/// What an attribute value spells for one character.
pub open spec fn escaped_char(c: char) -> Seq<char> {
    if c == '&' {
        "&amp;"@
    } else if c == '<' {
        "&lt;"@
    } else if c == '>' {
        "&gt;"@
    } else if c == '"' {
        "&quot;"@
    } else if c == '\'' {
        "&apos;"@
    } else {
        seq![c]
    }
}

/// `s` escaped for an XML attribute value.
pub open spec fn xml_escaped(s: Seq<char>) -> Seq<char>
    decreases s.len(),
{
    if s.len() == 0 {
        Seq::empty()
    } else {
        xml_escaped(s.drop_last()) + escaped_char(s.last())
    }
}

/// What text content spells for one character: only `&`, `<` and `>` are escaped.
pub open spec fn text_escaped_char(c: char) -> Seq<char> {
    if c == '&' {
        "&amp;"@
    } else if c == '<' {
        "&lt;"@
    } else if c == '>' {
        "&gt;"@
    } else {
        seq![c]
    }
}

/// `s` escaped as XML text content.
pub open spec fn text_escaped(s: Seq<char>) -> Seq<char>
    decreases s.len(),
{
    if s.len() == 0 {
        Seq::empty()
    } else {
        text_escaped(s.drop_last()) + text_escaped_char(s.last())
    }
}

/// Appends `value` escaped for an XML attribute.
pub fn xml_escape(output: &mut String, value: &str)
    ensures
        final(output)@ == old(output)@ + xml_escaped(value@),
{
    let chars = chars_of(value);
    let mut i: usize = 0;
    while i < chars.len()
        invariant
            i <= chars@.len(),
            chars@ == value@,
            output@ == old(output)@ + xml_escaped(chars@.take(i as int)),
        decreases chars.len() - i,
    {
        let c = chars[i];
        assert(chars@.take(i + 1).drop_last() == chars@.take(i as int));
        if c == '&' {
            push_str(output, "&amp;");
        } else if c == '<' {
            push_str(output, "&lt;");
        } else if c == '>' {
            push_str(output, "&gt;");
        } else if c == '"' {
            push_str(output, "&quot;");
        } else if c == '\'' {
            push_str(output, "&apos;");
        } else {
            push_char(output, c);
        }
        i = i + 1;
    }
    assert(chars@.take(chars@.len() as int) == chars@);
}

/// Appends `value` escaped as XML text content.
pub fn text_escape(output: &mut String, value: &str)
    ensures
        final(output)@ == old(output)@ + text_escaped(value@),
{
    let chars = chars_of(value);
    let mut i: usize = 0;
    while i < chars.len()
        invariant
            i <= chars@.len(),
            chars@ == value@,
            output@ == old(output)@ + text_escaped(chars@.take(i as int)),
        decreases chars.len() - i,
    {
        let c = chars[i];
        assert(chars@.take(i + 1).drop_last() == chars@.take(i as int));
        if c == '&' {
            push_str(output, "&amp;");
        } else if c == '<' {
            push_str(output, "&lt;");
        } else if c == '>' {
            push_str(output, "&gt;");
        } else {
            push_char(output, c);
        }
        i = i + 1;
    }
    assert(chars@.take(chars@.len() as int) == chars@);
}

/// One piece of shape text kept verbatim from a copy source: literal text, or a run marker
/// pointing at a row of the character, paragraph, tab or field section.
#[derive(Clone, Debug, PartialEq, Eq)]
pub enum TextToken {
    Literal(String),
    CharacterRun(u32),
    ParagraphRun(u32),
    Tab(u32),
    Field(u32),
}

/// An empty marker element `<tag IX="ix"></tag>`.
pub open spec fn marker_xml(tag: Seq<char>, ix: u32) -> Seq<char> {
    "<"@ + tag + " IX=\""@ + decimal(ix as nat) + "\"></"@ + tag + ">"@
}

/// The XML of one text token.
pub open spec fn token_xml(token: TextToken) -> Seq<char> {
    match token {
        TextToken::Literal(value) => text_escaped(value@),
        TextToken::CharacterRun(ix) => marker_xml("cp"@, ix),
        TextToken::ParagraphRun(ix) => marker_xml("pp"@, ix),
        TextToken::Tab(ix) => marker_xml("tp"@, ix),
        TextToken::Field(ix) => marker_xml("fld"@, ix),
    }
}

/// The XML of a token sequence, in order.
pub open spec fn tokens_xml(tokens: Seq<TextToken>) -> Seq<char>
    decreases tokens.len(),
{
    if tokens.len() == 0 {
        Seq::empty()
    } else {
        tokens_xml(tokens.drop_last()) + token_xml(tokens.last())
    }
}

fn push_marker(output: &mut String, tag: &str, ix: u32)
    ensures
        final(output)@ == old(output)@ + marker_xml(tag@, ix),
{
    push_str(output, "<");
    push_str(output, tag);
    push_str(output, " IX=\"");
    push_decimal(output, ix as u64);
    push_str(output, "\"></");
    push_str(output, tag);
    push_str(output, ">");
}

/// Appends the XML of one text token.
pub fn text_token_xml(output: &mut String, token: &TextToken)
    ensures
        final(output)@ == old(output)@ + token_xml(*token),
{
    match token {
        TextToken::Literal(value) => text_escape(output, value.as_str()),
        TextToken::CharacterRun(ix) => push_marker(output, "cp", *ix),
        TextToken::ParagraphRun(ix) => push_marker(output, "pp", *ix),
        TextToken::Tab(ix) => push_marker(output, "tp", *ix),
        TextToken::Field(ix) => push_marker(output, "fld", *ix),
    }
}

/// The formula a cell is written with: its own, or with `Sheet.N!` targets remapped.
pub open spec fn written_formula(formula: Seq<char>, remap: Option<Map<u32, u32>>) -> Seq<char> {
    match remap {
        Some(map) => remapped(formula, map),
        None => formula,
    }
}

/// An attribute ` name="escaped value"`.
pub open spec fn attribute(name: Seq<char>, value: Seq<char>) -> Seq<char> {
    " "@ + name + "=\""@ + xml_escaped(value) + "\""@
}

/// The `<Cell/>` element of a cell: its name, then its formula and value when present.
pub open spec fn cell_xml_of(cell: CellSnapshot, remap: Option<Map<u32, u32>>) -> Seq<char> {
    "<Cell"@ + attribute("N"@, cell.name@) + match cell.formula {
        Some(formula) => attribute("F"@, written_formula(formula@, remap)),
        None => Seq::empty(),
    } + match cell.value {
        Some(value) => attribute("V"@, value@),
        None => Seq::empty(),
    } + "/>"@
}

/// A remap table as a map, when there is one.
pub open spec fn remap_view(remap: Option<&BTreeMap<u32, u32>>) -> Option<Map<u32, u32>> {
    match remap {
        Some(map) => Some(map@),
        None => None,
    }
}

pub(crate) fn push_attribute(output: &mut String, name: &str, value: &str)
    ensures
        final(output)@ == old(output)@ + attribute(name@, value@),
{
    push_str(output, " ");
    push_str(output, name);
    push_str(output, "=\"");
    xml_escape(output, value);
    push_str(output, "\"");
}

/// Appends the `<Cell/>` element of `cell`, remapping its formula's sheet references when a
/// remap table is given.
pub fn cell_xml(output: &mut String, cell: &CellSnapshot, remap: Option<&BTreeMap<u32, u32>>)
    ensures
        final(output)@ == old(output)@ + cell_xml_of(*cell, remap_view(remap)),
{
    push_str(output, "<Cell");
    push_attribute(output, "N", cell.name.as_str());
    match &cell.formula {
        Some(formula) => {
            let written = match remap {
                Some(map) => remap_sheet_refs(formula.as_str(), map),
                None => owned(formula.as_str()),
            };
            push_attribute(output, "F", written.as_str());
        },
        None => {},
    }
    match &cell.value {
        Some(value) => push_attribute(output, "V", value.as_str()),
        None => {},
    }
    push_str(output, "/>");
}

/// Shape text the save can write back: within the text limit in UTF-8 bytes, and XML text.
pub open spec fn story_text_ok(text: Seq<char>, limits: ParseLimits) -> bool {
    utf8_len(text) <= limits.max_xml_text_bytes && forall|k: int|
        0 <= k < text.len() ==> xml_char(#[trigger] text[k])
}

/// Whether the UTF-8 length of `chars` stays within `max`.
fn utf8_len_within(chars: &Vec<char>, max: usize) -> (result: bool)
    ensures
        result == (utf8_len(chars@) <= max),
{
    let mut total: usize = 0;
    let mut i: usize = 0;
    while i < chars.len()
        invariant
            i <= chars@.len(),
            total == utf8_len(chars@.take(i as int)),
            total <= max,
        decreases chars.len() - i,
    {
        assert(chars@.take(i + 1).drop_last() == chars@.take(i as int));
        let width = utf8_width_of(chars[i]);
        if width > max - total {
            proof {
                lemma_utf8_len_grows(chars@, i + 1, chars@.len() as int);
                assert(chars@.take(chars@.len() as int) == chars@);
            }
            return false;
        }
        total = total + width;
        i = i + 1;
    }
    assert(chars@.take(chars@.len() as int) == chars@);
    true
}

/// Refuses shape text the save could not write back: too long first, then a character XML 1.0
/// forbids.
pub fn validate_story_text(text: &str, limits: &ParseLimits) -> (result: EditResult<()>)
    ensures
        utf8_len(text@) > limits.max_xml_text_bytes ==> (result matches Err(
            EditError::InvalidState(message),
        ) && message@ == "shape text exceeds maximum length"@),
        utf8_len(text@) <= limits.max_xml_text_bytes && !story_text_ok(text@, *limits) ==> (
        result matches Err(EditError::InvalidState(message)) && message@
            == "shape text contains a character forbidden by XML 1.0"@),
        story_text_ok(text@, *limits) ==> result is Ok,
{
    let chars = chars_of(text);
    if !utf8_len_within(&chars, limits.max_xml_text_bytes) {
        return Err(invalid_state("shape text exceeds maximum length"));
    }
    let mut i: usize = 0;
    while i < chars.len()
        invariant
            i <= chars@.len(),
            chars@ == text@,
            utf8_len(text@) <= limits.max_xml_text_bytes,
            forall|k: int| 0 <= k < i ==> xml_char(#[trigger] chars@[k]),
        decreases chars.len() - i,
    {
        if !is_xml_char(chars[i]) {
            return Err(invalid_state("shape text contains a character forbidden by XML 1.0"));
        }
        i = i + 1;
    }
    Ok(())
}

} // verus!
