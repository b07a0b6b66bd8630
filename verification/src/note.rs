//! Note pages: named documents attached to a card.

use crate::error::DomainError;
use crate::ids::NotePageId;
use crate::text::{is_blank, trimmed};
use crate::title::normalize_non_empty_title;
use vstd::prelude::*;
use vstd::string::*;

verus! {

/// The abstract content of a note page.
pub ghost struct NoteModel {
    pub id: NotePageId,
    pub title: Seq<char>,
    pub body: Seq<char>,
}

/// A named document attached to a card.
#[derive(Debug, Clone, PartialEq, Eq)]
pub struct NotePage {
    id: NotePageId,
    title: String,
    body: String,
}

impl View for NotePage {
    type V = NoteModel;

    closed spec fn view(&self) -> NoteModel {
        NoteModel { id: self.id, title: self.title@, body: self.body@ }
    }
}

impl NotePage {
    /// Creates a note page with the given identifier, a trimmed non-blank title and
    /// an empty body.
    pub fn new_with_id(id: NotePageId, title: String) -> (r: Result<NotePage, DomainError>)
        ensures
            match r {
                Ok(n) => !is_blank(title@) && n@ == NoteModel {
                    id,
                    title: trimmed(title@),
                    body: Seq::empty(),
                },
                Err(e) => is_blank(title@) && e == DomainError::EmptyTitle,
            },
    {
        let title = normalize_non_empty_title(title.as_str())?;
        Ok(NotePage { id, title, body: String::new() })
    }

    /// Creates a note page with a freshly generated identifier, a trimmed non-blank
    /// title and an empty body.
    pub fn new(title: String) -> (r: Result<NotePage, DomainError>)
        ensures
            match r {
                Ok(n) => !is_blank(title@) && n@.title == trimmed(title@) && n@.body
                    == Seq::<char>::empty(),
                Err(e) => is_blank(title@) && e == DomainError::EmptyTitle,
            },
    {
        NotePage::new_with_id(NotePageId::new(), title)
    }

    /// Rebuilds a note page from stored parts, as they are; nothing is checked.
    pub fn from_parts(id: NotePageId, title: String, body: String) -> (r: NotePage)
        ensures
            r@ == (NoteModel { id, title: title@, body: body@ }),
    {
        NotePage { id, title, body }
    }

    /// The note page's identifier.
    pub fn id(&self) -> (r: NotePageId)
        ensures
            r == self@.id,
    {
        self.id
    }

    /// The note page's title.
    pub fn title(&self) -> (r: &str)
        ensures
            r@ == self@.title,
    {
        self.title.as_str()
    }

    /// The note page's body.
    pub fn body(&self) -> (r: &str)
        ensures
            r@ == self@.body,
    {
        self.body.as_str()
    }

    /// Replaces the title with the trimmed new title, unless it is blank.
    pub fn rename(&mut self, title: String) -> (r: Result<(), DomainError>)
        ensures
            match r {
                Ok(()) => !is_blank(title@) && final(self)@ == NoteModel {
                    title: trimmed(title@),
                    ..old(self)@
                },
                Err(e) => is_blank(title@) && e == DomainError::EmptyTitle && final(self)@ == old(
                    self,
                )@,
            },
    {
        let t = normalize_non_empty_title(title.as_str())?;
        self.title = t;
        Ok(())
    }

    /// Replaces the body.
    pub fn set_body(&mut self, body: String)
        ensures
            final(self)@ == (NoteModel { body: body@, ..old(self)@ }),
    {
        self.body = body;
    }
}

} // verus!
