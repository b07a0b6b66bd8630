//! State changes of the registry: creating cards, editing one card, and moving
//! a card within its parent's children.

use crate::card::{
    note_add_outcome, note_body_outcome, note_delete_outcome, note_rename_outcome, opt_date,
    opt_text, rename_outcome, reorder_outcome, Card, CardModel,
};
use crate::due_date::DueDate;
use crate::error::DomainError;
use crate::ids::{CardId, NotePageId};
use crate::ordering::{lemma_moved, moved};
use crate::registry::model::{key, single_root, the_root};
use crate::registry::validation::text_with_ids;
use crate::registry::{workspace_fault_text, CardRegistry};
use crate::text::is_blank;
use vstd::prelude::*;

verus! {

broadcast use vstd::std_specs::hash::group_hash_axioms;

/// A card as it is created: no children, no note pages, no due date.
pub open spec fn new_card(
    id: CardId,
    title: Seq<char>,
    description: Option<Seq<char>>,
    parent_id: Option<CardId>,
) -> CardModel {
    CardModel {
        id,
        title,
        description,
        parent_id,
        children: Seq::empty(),
        notes: Seq::empty(),
        due_date: None,
        bucket_id: None,
        buckets: Seq::empty(),
    }
}

/// `m` with card `c` stored and appended to the children of `p`.
pub open spec fn with_new_child(m: Map<u128, CardModel>, p: CardId, c: CardModel) -> Map<
    u128,
    CardModel,
> {
    m.insert(key(p), CardModel { children: m[key(p)].children.push(c.id), ..m[key(p)] }).insert(
        key(c.id),
        c,
    )
}

/// What creating a card titled `title` under `p` does: refused when `p` is not
/// stored or the title is blank, and then nothing changes; otherwise the new
/// card, under the returned identifier, is stored and appended to `p`'s children.
pub open spec fn creation(
    m: Map<u128, CardModel>,
    p: CardId,
    title: Seq<char>,
    description: Option<Seq<char>>,
    r: Result<CardId, DomainError>,
    m2: Map<u128, CardModel>,
) -> bool {
    if !m.contains_key(key(p)) {
        r == Err::<CardId, DomainError>(DomainError::CardNotFound(p)) && m2 == m
    } else if is_blank(title) {
        r == Err::<CardId, DomainError>(DomainError::EmptyTitle) && m2 == m
    } else {
        r matches Ok(id) && m2 == with_new_child(m, p, new_card(id, title, description, Some(p)))
    }
}

/// What creating a card under the workspace card does: refused, with nothing
/// changed, when there is not exactly one workspace card; otherwise a creation
/// under it.
pub open spec fn workspace_creation(
    m: Map<u128, CardModel>,
    title: Seq<char>,
    description: Option<Seq<char>>,
    r: Result<CardId, DomainError>,
    m2: Map<u128, CardModel>,
) -> bool {
    if single_root(m) {
        creation(m, m[the_root(m)].id, title, description, r, m2)
    } else {
        (r matches Err(DomainError::InvalidOperation(t)) && t@ == workspace_fault_text(m)) && m2
            == m
    }
}

/// An edit of card `id` alone: refused with `CardNotFound` when it is not
/// stored, and then nothing changes; otherwise only that card may change.
pub open spec fn edits_one<R>(
    m: Map<u128, CardModel>,
    id: CardId,
    r: Result<R, DomainError>,
    m2: Map<u128, CardModel>,
) -> bool {
    if m.contains_key(key(id)) {
        m2 == m.insert(key(id), m2[key(id)])
    } else {
        r == Err::<R, DomainError>(DomainError::CardNotFound(id)) && m2 == m
    }
}

/// The view of an optional optional text.
pub open spec fn opt_opt_text(o: Option<Option<String>>) -> Option<Option<Seq<char>>> {
    match o {
        Some(d) => Some(opt_text(d)),
        None => None,
    }
}

/// The view of an optional optional due date.
pub open spec fn opt_opt_date(o: Option<Option<DueDate>>) -> Option<Option<Seq<char>>> {
    match o {
        Some(d) => Some(opt_date(d)),
        None => None,
    }
}

/// What updating a card's details does: a blank new title is refused and
/// changes nothing; otherwise each detail that is given replaces the old one.
pub open spec fn details_outcome(
    c: CardModel,
    title: Option<Seq<char>>,
    description: Option<Option<Seq<char>>>,
    due_date: Option<Option<Seq<char>>>,
    r: Result<(), DomainError>,
    c2: CardModel,
) -> bool {
    if title matches Some(t) && is_blank(t) {
        r == Err::<(), DomainError>(DomainError::EmptyTitle) && c2 == c
    } else {
        r is Ok && c2 == (CardModel {
            title: match title {
                Some(t) => t,
                None => c.title,
            },
            description: match description {
                Some(d) => d,
                None => c.description,
            },
            due_date: match due_date {
                Some(d) => d,
                None => c.due_date,
            },
            ..c
        })
    }
}

/// The text of the error for a card moved within a parent it is not a child of.
pub open spec fn not_a_child_text(c: CardId, p: CardId) -> Seq<char> {
    "Card "@ + crate::ids::ulid_text(c.0) + " is not a child of parent "@ + crate::ids::ulid_text(
        p.0,
    )
}

/// What renaming card `id` does.
pub open spec fn renames_card(
    m: Map<u128, CardModel>,
    id: CardId,
    title: Seq<char>,
    r: Result<(), DomainError>,
    m2: Map<u128, CardModel>,
) -> bool {
    &&& edits_one(m, id, r, m2)
    &&& m.contains_key(key(id)) ==> rename_outcome(m[key(id)], title, r, m2[key(id)])
}

/// What replacing the description of card `id` does.
pub open spec fn sets_description(
    m: Map<u128, CardModel>,
    id: CardId,
    description: Option<Seq<char>>,
    r: Result<(), DomainError>,
    m2: Map<u128, CardModel>,
) -> bool {
    &&& edits_one(m, id, r, m2)
    &&& m.contains_key(key(id)) ==> r is Ok && m2[key(id)] == (CardModel {
        description,
        ..m[key(id)]
    })
}

/// What updating the details of card `id` does.
pub open spec fn updates_details(
    m: Map<u128, CardModel>,
    id: CardId,
    title: Option<Seq<char>>,
    description: Option<Option<Seq<char>>>,
    due_date: Option<Option<Seq<char>>>,
    r: Result<(), DomainError>,
    m2: Map<u128, CardModel>,
) -> bool {
    &&& edits_one(m, id, r, m2)
    &&& m.contains_key(key(id)) ==> details_outcome(
        m[key(id)],
        title,
        description,
        due_date,
        r,
        m2[key(id)],
    )
}

/// What adding a note page to card `id` does.
pub open spec fn adds_note(
    m: Map<u128, CardModel>,
    id: CardId,
    title: Seq<char>,
    r: Result<NotePageId, DomainError>,
    m2: Map<u128, CardModel>,
) -> bool {
    &&& edits_one(m, id, r, m2)
    &&& m.contains_key(key(id)) ==> note_add_outcome(m[key(id)], title, r, m2[key(id)])
}

/// What renaming note page `note` of card `id` does.
pub open spec fn renames_note(
    m: Map<u128, CardModel>,
    id: CardId,
    note: NotePageId,
    title: Seq<char>,
    r: Result<(), DomainError>,
    m2: Map<u128, CardModel>,
) -> bool {
    &&& edits_one(m, id, r, m2)
    &&& m.contains_key(key(id)) ==> note_rename_outcome(m[key(id)], note, title, r, m2[key(id)])
}

/// What saving the body of note page `note` of card `id` does.
pub open spec fn saves_note_body(
    m: Map<u128, CardModel>,
    id: CardId,
    note: NotePageId,
    body: Seq<char>,
    r: Result<(), DomainError>,
    m2: Map<u128, CardModel>,
) -> bool {
    &&& edits_one(m, id, r, m2)
    &&& m.contains_key(key(id)) ==> note_body_outcome(m[key(id)], note, body, r, m2[key(id)])
}

/// What deleting note page `note` of card `id` does.
pub open spec fn deletes_note(
    m: Map<u128, CardModel>,
    id: CardId,
    note: NotePageId,
    r: Result<(), DomainError>,
    m2: Map<u128, CardModel>,
) -> bool {
    &&& edits_one(m, id, r, m2)
    &&& m.contains_key(key(id)) ==> note_delete_outcome(m[key(id)], note, r, m2[key(id)])
}

/// What setting (or, with `None`, clearing) the due date of card `id` does.
pub open spec fn sets_due_date(
    m: Map<u128, CardModel>,
    id: CardId,
    due_date: Option<Seq<char>>,
    r: Result<(), DomainError>,
    m2: Map<u128, CardModel>,
) -> bool {
    &&& edits_one(m, id, r, m2)
    &&& m.contains_key(key(id)) ==> r is Ok && m2[key(id)] == (CardModel {
        due_date,
        ..m[key(id)]
    })
}

/// What reordering the children of card `id` does.
pub open spec fn reorders_children(
    m: Map<u128, CardModel>,
    id: CardId,
    ordered: Seq<CardId>,
    r: Result<(), DomainError>,
    m2: Map<u128, CardModel>,
) -> bool {
    &&& edits_one(m, id, r, m2)
    &&& m.contains_key(key(id)) ==> reorder_outcome(m[key(id)], ordered, r, m2[key(id)])
}

/// What moving child `c` of `p` to position `target` does: refused when `c` is
/// no child of `p`; otherwise a reorder into the moved order, which succeeds
/// whenever the children are listed once each.
pub open spec fn drops_child(
    m: Map<u128, CardModel>,
    p: CardId,
    c: CardId,
    target: int,
    r: Result<(), DomainError>,
    m2: Map<u128, CardModel>,
) -> bool {
    &&& edits_one(m, p, r, m2)
    &&& m.contains_key(key(p)) && !m[key(p)].children.contains(c) ==> (r matches Err(
        DomainError::InvalidOperation(msg),
    ) && msg@ == not_a_child_text(c, p)) && m2 == m
    &&& m.contains_key(key(p)) && m[key(p)].children.contains(c) ==> reorder_outcome(
        m[key(p)],
        moved(m[key(p)].children, c, target),
        r,
        m2[key(p)],
    )
    &&& m.contains_key(key(p)) && m[key(p)].children.contains(c)
        && m[key(p)].children.no_duplicates() ==> r is Ok
}

impl CardRegistry {
    /// Creates a card with a description under `parent_id`.
    fn create_child_card_described(
        &mut self,
        title: String,
        description: Option<String>,
        parent_id: CardId,
    ) -> (r: Result<CardId, DomainError>)
        ensures
            creation(old(self)@, parent_id, title@, opt_text(description), r, final(self)@),
    {
        let ghost desc = opt_text(description);
        let ghost t = title@;
        if let Err(e) = self.get_card(parent_id) {
            return Err(e);
        }
        let child = Card::new(title, description, Some(parent_id))?;
        let child_id = child.id();
        assert(child@.children =~= Seq::<CardId>::empty());
        assert(child@.notes =~= Seq::<crate::note::NoteModel>::empty());
        assert(child@.buckets =~= Seq::<crate::bucket::BucketModel>::empty());
        assert(child@ == new_card(child_id, t, desc, Some(parent_id)));
        match self.get_card_mut(parent_id) {
            Ok(p) => p.add_child(child_id),
            Err(e) => return Err(e),
        }
        self.store.insert(child_id.0, child);
        proof {
            self.lemma_view();
            assert(self@ =~= with_new_child(old(self)@, parent_id, new_card(child_id, t, desc, Some(parent_id))));
        }
        Ok(child_id)
    }

    /// Creates a card with a description under the workspace card.
    fn create_workspace_child_card_described(
        &mut self,
        title: String,
        description: Option<String>,
    ) -> (r: Result<CardId, DomainError>)
        ensures
            workspace_creation(old(self)@, title@, opt_text(description), r, final(self)@),
    {
        let workspace_id = self.workspace_card_id()?;
        self.create_child_card_described(title, description, workspace_id)
    }

    /// Creates a card as a direct child of the workspace card.
    pub fn create_workspace_child_card(&mut self, title: String) -> (r: Result<CardId, DomainError>)
        ensures
            workspace_creation(old(self)@, title@, None, r, final(self)@),
    {
        self.create_workspace_child_card_described(title, None)
    }

    /// Creates a card as a child of `parent_id`.
    pub fn create_child_card(&mut self, title: String, parent_id: CardId) -> (r: Result<
        CardId,
        DomainError,
    >)
        ensures
            creation(old(self)@, parent_id, title@, None, r, final(self)@),
    {
        self.create_child_card_described(title, None, parent_id)
    }

    /// Creates a card with a description, under `parent_id` when one is given and
    /// under the workspace card otherwise.
    pub fn create_card(
        &mut self,
        title: String,
        description: Option<String>,
        parent_id: Option<CardId>,
    ) -> (r: Result<CardId, DomainError>)
        ensures
            match parent_id {
                Some(p) => creation(old(self)@, p, title@, opt_text(description), r, final(self)@),
                None => workspace_creation(old(self)@, title@, opt_text(description), r, final(self)@),
            },
    {
        match parent_id {
            Some(p) => self.create_child_card_described(title, description, p),
            None => self.create_workspace_child_card_described(title, description),
        }
    }

    /// Renames a card; a blank title is refused.
    pub fn rename_card(&mut self, id: CardId, title: String) -> (r: Result<(), DomainError>)
        ensures
            renames_card(old(self)@, id, title@, r, final(self)@),
    {
        let c = self.get_card_mut(id)?;
        c.rename(title)
    }

    /// Replaces a card's description.
    pub fn set_card_description(&mut self, id: CardId, description: Option<String>) -> (r: Result<
        (),
        DomainError,
    >)
        ensures
            sets_description(old(self)@, id, opt_text(description), r, final(self)@),
    {
        let c = self.get_card_mut(id)?;
        c.set_description(description)
    }

    /// Updates, in one step, whichever of a card's title, description and due
    /// date are given; a blank title is refused and then nothing changes.
    pub fn update_card_details(
        &mut self,
        id: CardId,
        title: Option<String>,
        description: Option<Option<String>>,
        due_date: Option<Option<DueDate>>,
    ) -> (r: Result<(), DomainError>)
        ensures
            updates_details(
                old(self)@,
                id,
                opt_text(title),
                opt_opt_text(description),
                opt_opt_date(due_date),
                r,
                final(self)@,
            ),
    {
        let card = self.get_card_mut(id)?;
        if let Some(t) = title {
            card.rename(t)?;
        }
        if let Some(d) = description {
            card.set_description(d)?;
        }
        if let Some(due) = due_date {
            card.set_due_date(due);
        }
        Ok(())
    }

    /// Adds a note page to a card and returns its identifier.
    pub fn add_note_page(&mut self, card_id: CardId, title: String) -> (r: Result<
        NotePageId,
        DomainError,
    >)
        ensures
            adds_note(old(self)@, card_id, title@, r, final(self)@),
    {
        let c = self.get_card_mut(card_id)?;
        c.add_note_page(title)
    }

    /// Renames a note page of a card.
    pub fn rename_note_page(&mut self, card_id: CardId, note_page_id: NotePageId, title: String) -> (r:
        Result<(), DomainError>)
        ensures
            renames_note(old(self)@, card_id, note_page_id, title@, r, final(self)@),
    {
        let c = self.get_card_mut(card_id)?;
        c.rename_note_page(note_page_id, title)
    }

    /// Saves the body of a note page of a card.
    pub fn save_note_page_body(&mut self, card_id: CardId, note_page_id: NotePageId, body: String) -> (r:
        Result<(), DomainError>)
        ensures
            saves_note_body(old(self)@, card_id, note_page_id, body@, r, final(self)@),
    {
        let c = self.get_card_mut(card_id)?;
        c.save_note_page_body(note_page_id, body)
    }

    /// Deletes a note page of a card.
    pub fn delete_note_page(&mut self, card_id: CardId, note_page_id: NotePageId) -> (r: Result<
        (),
        DomainError,
    >)
        ensures
            deletes_note(old(self)@, card_id, note_page_id, r, final(self)@),
    {
        let c = self.get_card_mut(card_id)?;
        c.delete_note_page(note_page_id)
    }

    /// Sets a card's due date.
    pub fn set_due_date(&mut self, card_id: CardId, due_date: DueDate) -> (r: Result<(), DomainError>)
        ensures
            sets_due_date(old(self)@, card_id, Some(due_date@), r, final(self)@),
    {
        let c = self.get_card_mut(card_id)?;
        c.set_due_date(Some(due_date));
        Ok(())
    }

    /// Clears a card's due date.
    pub fn clear_due_date(&mut self, card_id: CardId) -> (r: Result<(), DomainError>)
        ensures
            sets_due_date(old(self)@, card_id, None, r, final(self)@),
    {
        let c = self.get_card_mut(card_id)?;
        c.set_due_date(None);
        Ok(())
    }

    /// Puts the children of a card in the given order, which must hold every
    /// current child exactly once.
    pub fn reorder_children(&mut self, parent_id: CardId, ordered_ids: Vec<CardId>) -> (r: Result<
        (),
        DomainError,
    >)
        ensures
            reorders_children(old(self)@, parent_id, ordered_ids@, r, final(self)@),
    {
        let c = self.get_card_mut(parent_id)?;
        c.reorder_children(ordered_ids)
    }

    /// Moves child `card_id` of `parent_id` to position `target_index` among the
    /// other children (to the end when the index lies beyond it).
    pub fn drop_child_at_position(
        &mut self,
        parent_id: CardId,
        card_id: CardId,
        target_index: usize,
    ) -> (r: Result<(), DomainError>)
        ensures
            drops_child(old(self)@, parent_id, card_id, target_index as int, r, final(self)@),
    {
        let parent = self.get_card(parent_id)?;
        if !crate::ordering::contains_value(parent.children_ids(), card_id) {
            let m = text_with_ids("Card ", card_id, " is not a child of parent ", parent_id, "");
            proof {
                reveal_strlit("");
                assert(m@ =~= not_a_child_text(card_id, parent_id));
                assert(old(self)@.insert(key(parent_id), old(self)@[key(parent_id)]) =~= old(self)@);
            }
            return Err(DomainError::InvalidOperation(m));
        }
        let reordered = crate::interface::reorder_ids(parent.children_ids(), card_id, target_index);
        proof {
            let ch = old(self)@[key(parent_id)].children;
            if ch.no_duplicates() {
                lemma_moved(ch, card_id, target_index as int);
                let mv = moved(ch, card_id, target_index as int);
                assert forall|i: int| 0 <= i < mv.len() implies !#[trigger] crate::card::reorder_fault_at(ch, mv, i) by {
                    assert(mv.contains(mv[i]));
                    if mv.subrange(0, i).contains(mv[i]) {
                        let j = choose|j: int| 0 <= j < i && mv.subrange(0, i)[j] == mv[i];
                        assert(mv[j] == mv[i]);
                    }
                }
            }
        }
        self.reorder_children(parent_id, reordered)
    }
}

} // verus!
