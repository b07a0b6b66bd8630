//! Label definitions: a named, colored tag.

use crate::error::DomainError;
use crate::ids::LabelId;
use crate::text::{is_blank, trim, trimmed};
use vstd::prelude::*;
use vstd::string::*;

verus! {

/// The colors a label can have.
#[derive(Debug, Clone, Copy, PartialEq, Eq, Structural)]
pub enum LabelColor {
    Ember,
    Gold,
    Moss,
    Sky,
    Indigo,
    Rose,
}

/// The display name of a color.
pub open spec fn color_name(c: LabelColor) -> Seq<char> {
    match c {
        LabelColor::Ember => "Ember"@,
        LabelColor::Gold => "Gold"@,
        LabelColor::Moss => "Moss"@,
        LabelColor::Sky => "Sky"@,
        LabelColor::Indigo => "Indigo"@,
        LabelColor::Rose => "Rose"@,
    }
}

/// The background and text colors (CSS values) of a color.
pub open spec fn color_palette(c: LabelColor) -> (Seq<char>, Seq<char>) {
    match c {
        LabelColor::Ember => ("rgba(251,146,60,0.18)"@, "#c2410c"@),
        LabelColor::Gold => ("rgba(250,204,21,0.2)"@, "#854d0e"@),
        LabelColor::Moss => ("rgba(74,222,128,0.18)"@, "#166534"@),
        LabelColor::Sky => ("rgba(56,189,248,0.18)"@, "#0369a1"@),
        LabelColor::Indigo => ("rgba(129,140,248,0.18)"@, "#4338ca"@),
        LabelColor::Rose => ("rgba(251,113,133,0.18)"@, "#be123c"@),
    }
}

impl LabelColor {
    /// All colors, in display order.
    pub fn all() -> (r: [LabelColor; 6])
        ensures
            r@ == seq![
                LabelColor::Ember,
                LabelColor::Gold,
                LabelColor::Moss,
                LabelColor::Sky,
                LabelColor::Indigo,
                LabelColor::Rose,
            ],
    {
        [
            LabelColor::Ember,
            LabelColor::Gold,
            LabelColor::Moss,
            LabelColor::Sky,
            LabelColor::Indigo,
            LabelColor::Rose,
        ]
    }

    /// The display name of the color.
    pub fn as_str(&self) -> (r: &'static str)
        ensures
            r@ == color_name(*self),
    {
        match self {
            LabelColor::Ember => "Ember",
            LabelColor::Gold => "Gold",
            LabelColor::Moss => "Moss",
            LabelColor::Sky => "Sky",
            LabelColor::Indigo => "Indigo",
            LabelColor::Rose => "Rose",
        }
    }

    /// The background and text colors of the color.
    pub fn palette(&self) -> (r: (&'static str, &'static str))
        ensures
            (r.0@, r.1@) == color_palette(*self),
    {
        match self {
            LabelColor::Ember => ("rgba(251,146,60,0.18)", "#c2410c"),
            LabelColor::Gold => ("rgba(250,204,21,0.2)", "#854d0e"),
            LabelColor::Moss => ("rgba(74,222,128,0.18)", "#166534"),
            LabelColor::Sky => ("rgba(56,189,248,0.18)", "#0369a1"),
            LabelColor::Indigo => ("rgba(129,140,248,0.18)", "#4338ca"),
            LabelColor::Rose => ("rgba(251,113,133,0.18)", "#be123c"),
        }
    }
}

/// The abstract content of a label definition.
pub ghost struct LabelModel {
    pub id: LabelId,
    pub name: Seq<char>,
    pub color: LabelColor,
}

/// A named, colored label.
#[derive(Debug, Clone, PartialEq, Eq)]
pub struct LabelDefinition {
    id: LabelId,
    name: String,
    color: LabelColor,
}

impl View for LabelDefinition {
    type V = LabelModel;

    closed spec fn view(&self) -> LabelModel {
        LabelModel { id: self.id, name: self.name@, color: self.color }
    }
}

/// The text of the error for a blank label name.
pub open spec fn blank_label_text() -> Seq<char> {
    "Label name cannot be empty or blank"@
}

impl LabelDefinition {
    /// Creates a label with the given identifier and the trimmed name, unless the
    /// name is blank.
    pub fn new_with_id(id: LabelId, name: String, color: LabelColor) -> (r: Result<
        LabelDefinition,
        DomainError,
    >)
        ensures
            match r {
                Ok(l) => !is_blank(name@) && l@ == LabelModel { id, name: trimmed(name@), color },
                Err(e) => is_blank(name@) && (e matches DomainError::InvalidOperation(m) && m@
                    == blank_label_text()),
            },
    {
        let t = trim(name.as_str());
        if t.unicode_len() == 0 {
            return Err(
                DomainError::InvalidOperation(String::from_str("Label name cannot be empty or blank")),
            );
        }
        Ok(LabelDefinition { id, name: String::from_str(t), color })
    }

    /// Creates a label with a fresh identifier and the trimmed name, unless the
    /// name is blank.
    pub fn new(name: String, color: LabelColor) -> (r: Result<LabelDefinition, DomainError>)
        ensures
            match r {
                Ok(l) => !is_blank(name@) && l@.name == trimmed(name@) && l@.color == color,
                Err(e) => is_blank(name@) && (e matches DomainError::InvalidOperation(m) && m@
                    == blank_label_text()),
            },
    {
        LabelDefinition::new_with_id(LabelId::new(), name, color)
    }

    /// The label's identifier.
    pub fn id(&self) -> (r: LabelId)
        ensures
            r == self@.id,
    {
        self.id
    }

    /// The label's name.
    pub fn name(&self) -> (r: &str)
        ensures
            r@ == self@.name,
    {
        self.name.as_str()
    }

    /// The label's color.
    pub fn color(&self) -> (r: LabelColor)
        ensures
            r == self@.color,
    {
        self.color
    }
}

} // verus!
