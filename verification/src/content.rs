//! Reading shape content: the plain text behind resolved text markers, and whether a shape's
//! own package content can be copied losslessly.
use vstd::prelude::*;
use vstd::string::*;

use crate::text::{push_char, push_str};

verus! {

/// One resolved piece of shape text: literal text, a run marker, or a field with the value it
/// resolves to, if any.
#[derive(Clone, Debug, PartialEq, Eq)]
pub enum ResolvedTextToken {
    Literal(String),
    CharacterRun,
    ParagraphRun,
    Tab,
    Field { value: Option<String> },
}

/// The plain text of the tokens: literals and field values as they are, a tab for each tab
/// run, a line break for each paragraph run that follows some text, nothing for character runs.
pub open spec fn plain_text_of(tokens: Seq<ResolvedTextToken>) -> Seq<char>
    decreases tokens.len(),
{
    if tokens.len() == 0 {
        Seq::empty()
    } else {
        let before = plain_text_of(tokens.drop_last());
        match tokens.last() {
            ResolvedTextToken::Literal(value) => before + value@,
            ResolvedTextToken::CharacterRun => before,
            ResolvedTextToken::ParagraphRun => if before.len() > 0 {
                before.push('\n')
            } else {
                before
            },
            ResolvedTextToken::Tab => before.push('\t'),
            ResolvedTextToken::Field { value } => match value {
                Some(value) => before + value@,
                None => before,
            },
        }
    }
}

/// Plain text behind resolved text markers; paragraph and tab runs become control characters.
pub fn plain_text(tokens: &[ResolvedTextToken]) -> (result: String)
    ensures
        result@ == plain_text_of(tokens@),
{
    let mut output = String::new();
    let mut empty = true;
    let mut i: usize = 0;
    while i < tokens.len()
        invariant
            i <= tokens@.len(),
            output@ == plain_text_of(tokens@.take(i as int)),
            empty == (output@.len() == 0),
        decreases tokens.len() - i,
    {
        assert(tokens@.take(i + 1).drop_last() == tokens@.take(i as int));
        assert(tokens@.take(i + 1).last() == tokens@[i as int]);
        match &tokens[i] {
            ResolvedTextToken::Literal(value) => {
                push_str(&mut output, value.as_str());
                empty = empty && value.as_str().unicode_len() == 0;
            },
            ResolvedTextToken::CharacterRun => {},
            ResolvedTextToken::ParagraphRun => {
                if !empty {
                    push_char(&mut output, '\n');
                }
            },
            ResolvedTextToken::Tab => {
                push_char(&mut output, '\t');
                empty = false;
            },
            ResolvedTextToken::Field { value } => {
                match value {
                    Some(value) => {
                        push_str(&mut output, value.as_str());
                        empty = empty && value.as_str().unicode_len() == 0;
                    },
                    None => {},
                }
            },
        }
        i = i + 1;
    }
    assert(tokens@.take(tokens@.len() as int) == tokens@);
    output
}

/// One child of a shape section, as far as copying cares: a row with or without an index or a
/// name, and with only cells or something more; or something other than a row.
#[derive(Clone, Copy, Debug, PartialEq, Eq, Structural)]
pub enum SectionContent {
    Row { has_index: bool, has_name: bool, only_cells: bool },
    Other,
}

/// One child of a shape, as far as copying cares.
#[derive(Clone, Debug, PartialEq, Eq)]
pub enum ShapeContent {
    ForeignData,
    Unknown,
    Section(Vec<SectionContent>),
    Text,
    Cell,
    Shapes,
}

/// Why a section's rows cannot be copied, if they cannot: the first offending child decides.
pub open spec fn section_refusal(children: Seq<SectionContent>) -> Option<Seq<char>>
    decreases children.len(),
{
    if children.len() == 0 {
        None
    } else {
        match section_refusal(children.drop_last()) {
            Some(reason) => Some(reason),
            None => match children.last() {
                SectionContent::Other => Some("unsupported shape content"@),
                SectionContent::Row { has_index, has_name, only_cells } => if !has_index && !has_name {
                    Some("unsupported geometry rows"@)
                } else if !only_cells {
                    Some("unsupported shape content"@)
                } else {
                    None
                },
            },
        }
    }
}

/// Why a shape cannot be copied losslessly from its own package content, if it cannot: the
/// first offending child decides.
pub open spec fn copy_refusal_of(children: Seq<ShapeContent>) -> Option<Seq<char>>
    decreases children.len(),
{
    if children.len() == 0 {
        None
    } else {
        match copy_refusal_of(children.drop_last()) {
            Some(reason) => Some(reason),
            None => match children.last() {
                ShapeContent::ForeignData => Some("embedded media"@),
                ShapeContent::Unknown => Some("unsupported shape content"@),
                ShapeContent::Section(rows) => section_refusal(rows@),
                _ => None,
            },
        }
    }
}

/// A static text as a plain value, if any.
pub open spec fn static_text(text: Option<&'static str>) -> Option<Seq<char>> {
    match text {
        Some(text) => Some(text@),
        None => None,
    }
}

fn section_rows_refusal(children: &Vec<SectionContent>) -> (result: Option<&'static str>)
    ensures
        static_text(result) == section_refusal(children@),
{
    let mut i: usize = 0;
    while i < children.len()
        invariant
            i <= children@.len(),
            section_refusal(children@.take(i as int)) is None,
        decreases children.len() - i,
    {
        assert(children@.take(i + 1).drop_last() == children@.take(i as int));
        assert(children@.take(i + 1).last() == children@[i as int]);
        let reason = match children[i] {
            SectionContent::Other => Some("unsupported shape content"),
            SectionContent::Row { has_index, has_name, only_cells } => {
                if !has_index && !has_name {
                    Some("unsupported geometry rows")
                } else if !only_cells {
                    Some("unsupported shape content")
                } else {
                    None
                }
            },
        };
        if reason.is_some() {
            proof {
                lemma_first_section_refusal(children@, i + 1);
            }
            return reason;
        }
        i = i + 1;
    }
    assert(children@.take(children@.len() as int) == children@);
    None
}

proof fn lemma_first_section_refusal(children: Seq<SectionContent>, n: int)
    requires
        0 <= n <= children.len(),
        section_refusal(children.take(n)) is Some,
    ensures
        section_refusal(children) == section_refusal(children.take(n)),
    decreases children.len() - n,
{
    if n < children.len() {
        assert(children.take(n + 1).drop_last() == children.take(n));
        lemma_first_section_refusal(children, n + 1);
    } else {
        assert(children.take(n) == children);
    }
}

proof fn lemma_first_copy_refusal(children: Seq<ShapeContent>, n: int)
    requires
        0 <= n <= children.len(),
        copy_refusal_of(children.take(n)) is Some,
    ensures
        copy_refusal_of(children) == copy_refusal_of(children.take(n)),
    decreases children.len() - n,
{
    if n < children.len() {
        assert(children.take(n + 1).drop_last() == children.take(n));
        lemma_first_copy_refusal(children, n + 1);
    } else {
        assert(children.take(n) == children);
    }
}

/// Why a shape cannot be copied losslessly from its own package content, if it cannot.
pub fn copy_refusal_reason(children: &[ShapeContent]) -> (result: Option<&'static str>)
    ensures
        static_text(result) == copy_refusal_of(children@),
{
    let mut i: usize = 0;
    while i < children.len()
        invariant
            i <= children@.len(),
            copy_refusal_of(children@.take(i as int)) is None,
        decreases children.len() - i,
    {
        assert(children@.take(i + 1).drop_last() == children@.take(i as int));
        assert(children@.take(i + 1).last() == children@[i as int]);
        let reason = match &children[i] {
            ShapeContent::ForeignData => Some("embedded media"),
            ShapeContent::Unknown => Some("unsupported shape content"),
            ShapeContent::Section(rows) => section_rows_refusal(rows),
            _ => None,
        };
        if reason.is_some() {
            proof {
                lemma_first_copy_refusal(children@, i + 1);
            }
            return reason;
        }
        i = i + 1;
    }
    assert(children@.take(children@.len() as int) == children@);
    None
}

} // verus!
