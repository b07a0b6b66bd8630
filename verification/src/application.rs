//! The command layer: every change to the registry as a value, applied and then
//! checked; and the read-only views that the screens show.

use crate::card::{has_note, opt_text, Card, CardModel};
use crate::due_date::DueDate;
use crate::error::DomainError;
use crate::ids::{CardId, NotePageId};
use crate::error::error_text;
use crate::logging::{after_record, DiagnosticEntry, DiagnosticModel, DiagnosticsBuffer};
use crate::registry::laws::{
    lemma_add_note_keeps_well_formed, lemma_creation_keeps_well_formed,
    lemma_delete_keeps_well_formed, lemma_delete_note_keeps_well_formed,
    lemma_drop_child_keeps_well_formed, lemma_due_date_keeps_well_formed,
    lemma_rename_card_keeps_well_formed, lemma_rename_note_keeps_well_formed,
    lemma_reorder_keeps_well_formed, lemma_reparent_keeps_well_formed,
    lemma_save_note_body_keeps_well_formed, lemma_set_description_keeps_well_formed,
    lemma_update_details_keeps_well_formed, lemma_well_formed_reparent_decidable,
    lemma_workspace_creation_keeps_well_formed,
};
use crate::registry::model::{acyclic, card_ok, key, single_root, the_root, well_formed};
use crate::registry::validation::validation_fault_text;
use crate::registry::moves::adopted;
use crate::registry::moves::{delete_decidable, delete_outcome, reparent_decidable, reparent_outcome};
use crate::registry::mutations::{
    adds_note, creation, deletes_note, drops_child, opt_opt_date, opt_opt_text, renames_card,
    renames_note, reorders_children, saves_note_body, sets_description, sets_due_date,
    updates_details, workspace_creation,
};
use crate::registry::{first_missing_child, CardRegistry, DeleteStrategy};
use vstd::prelude::*;

verus! {

/// A request to change the registry.
#[derive(Debug)]
#[allow(inconsistent_fields)]
pub enum Command {
    /// Create a card under the workspace card.
    CreateWorkspaceChildCard { title: String, description: Option<String> },
    /// Create a card under a given parent.
    CreateChildCard { title: String, description: Option<String>, parent_id: CardId },
    /// Create a card under a given parent, or under the workspace card.
    CreateCard { title: String, description: Option<String>, parent_id: Option<CardId> },
    /// Rename a card.
    RenameCard { id: CardId, title: String },
    /// Replace a card's description.
    SetCardDescription { id: CardId, description: Option<String> },
    /// Update whichever of a card's title, description and due date are given.
    UpdateCardDetails {
        id: CardId,
        title: Option<String>,
        description: Option<Option<String>>,
        due_date: Option<Option<DueDate>>,
    },
    /// Add a note page to a card.
    AddNotePage { card_id: CardId, title: String },
    /// Rename a note page.
    RenameNotePage { card_id: CardId, note_page_id: NotePageId, title: String },
    /// Save the body of a note page.
    SaveNotePageBody { card_id: CardId, note_page_id: NotePageId, body: String },
    /// Delete a note page.
    DeleteNotePage { card_id: CardId, note_page_id: NotePageId },
    /// Set a card's due date.
    SetDueDate { card_id: CardId, due_date: DueDate },
    /// Clear a card's due date.
    ClearDueDate { card_id: CardId },
    /// Delete a card.
    DeleteCard { id: CardId, strategy: DeleteStrategy },
    /// Move a card under another parent.
    ReparentCard { card_id: CardId, new_parent_id: CardId },
    /// Put a card's children in a given order.
    ReorderChildren { parent_id: CardId, ordered_ids: Vec<CardId> },
    /// Move a child to a position among its siblings.
    DropChildAtPosition { parent_id: CardId, card_id: CardId, target_index: usize },
}

/// The name of a command's variant.
pub open spec fn command_name(c: Command) -> Seq<char> {
    match c {
        Command::CreateWorkspaceChildCard { .. } => "CreateWorkspaceChildCard"@,
        Command::CreateChildCard { .. } => "CreateChildCard"@,
        Command::CreateCard { .. } => "CreateCard"@,
        Command::RenameCard { .. } => "RenameCard"@,
        Command::SetCardDescription { .. } => "SetCardDescription"@,
        Command::UpdateCardDetails { .. } => "UpdateCardDetails"@,
        Command::AddNotePage { .. } => "AddNotePage"@,
        Command::RenameNotePage { .. } => "RenameNotePage"@,
        Command::SaveNotePageBody { .. } => "SaveNotePageBody"@,
        Command::DeleteNotePage { .. } => "DeleteNotePage"@,
        Command::SetDueDate { .. } => "SetDueDate"@,
        Command::ClearDueDate { .. } => "ClearDueDate"@,
        Command::DeleteCard { .. } => "DeleteCard"@,
        Command::ReparentCard { .. } => "ReparentCard"@,
        Command::ReorderChildren { .. } => "ReorderChildren"@,
        Command::DropChildAtPosition { .. } => "DropChildAtPosition"@,
    }
}

/// A result without its value.
pub open spec fn unit<T>(r: Result<T, DomainError>) -> Result<(), DomainError> {
    match r {
        Ok(_) => Ok(()),
        Err(e) => Err(e),
    }
}

/// A command can be applied to `m`: a deletion that deletes or moves the cards
/// below a card needs a well-formed registry, a move needs the walk up from the
/// new parent to end.
pub open spec fn apply_decidable(c: Command, m: Map<u128, crate::card::CardModel>) -> bool {
    match c {
        Command::DeleteCard { id, strategy } => delete_decidable(m, id, strategy),
        Command::ReparentCard { card_id, new_parent_id } => reparent_decidable(
            m,
            card_id,
            new_parent_id,
        ),
        _ => true,
    }
}

/// What applying a command to `m` does: what the registry operation it names
/// does, with any value it returns dropped.
pub open spec fn apply_outcome(
    c: Command,
    m: Map<u128, crate::card::CardModel>,
    r: Result<(), DomainError>,
    m2: Map<u128, crate::card::CardModel>,
) -> bool {
    match c {
        Command::CreateWorkspaceChildCard { title, description } => exists|rc: Result<
            CardId,
            DomainError,
        >| #[trigger] workspace_creation(m, title@, opt_text(description), rc, m2) && r == unit(rc),
        Command::CreateChildCard { title, description, parent_id } => exists|rc: Result<
            CardId,
            DomainError,
        >| #[trigger] creation(m, parent_id, title@, opt_text(description), rc, m2) && r == unit(
            rc,
        ),
        Command::CreateCard { title, description, parent_id } => match parent_id {
            Some(p) => exists|rc: Result<CardId, DomainError>| #[trigger]
                creation(m, p, title@, opt_text(description), rc, m2) && r == unit(rc),
            None => exists|rc: Result<CardId, DomainError>| #[trigger]
                workspace_creation(m, title@, opt_text(description), rc, m2) && r == unit(rc),
        },
        Command::RenameCard { id, title } => renames_card(m, id, title@, r, m2),
        Command::SetCardDescription { id, description } => sets_description(
            m,
            id,
            opt_text(description),
            r,
            m2,
        ),
        Command::UpdateCardDetails { id, title, description, due_date } => updates_details(
            m,
            id,
            opt_text(title),
            opt_opt_text(description),
            opt_opt_date(due_date),
            r,
            m2,
        ),
        Command::AddNotePage { card_id, title } => exists|rn: Result<NotePageId, DomainError>|
            #[trigger] adds_note(m, card_id, title@, rn, m2) && r == unit(rn),
        Command::RenameNotePage { card_id, note_page_id, title } => renames_note(
            m,
            card_id,
            note_page_id,
            title@,
            r,
            m2,
        ),
        Command::SaveNotePageBody { card_id, note_page_id, body } => saves_note_body(
            m,
            card_id,
            note_page_id,
            body@,
            r,
            m2,
        ),
        Command::DeleteNotePage { card_id, note_page_id } => deletes_note(
            m,
            card_id,
            note_page_id,
            r,
            m2,
        ),
        Command::SetDueDate { card_id, due_date } => sets_due_date(
            m,
            card_id,
            Some(due_date@),
            r,
            m2,
        ),
        Command::ClearDueDate { card_id } => sets_due_date(m, card_id, None, r, m2),
        Command::DeleteCard { id, strategy } => delete_outcome(m, id, strategy, r, m2),
        Command::ReparentCard { card_id, new_parent_id } => reparent_outcome(
            m,
            card_id,
            new_parent_id,
            r,
            m2,
        ),
        Command::ReorderChildren { parent_id, ordered_ids } => reorders_children(
            m,
            parent_id,
            ordered_ids@,
            r,
            m2,
        ),
        Command::DropChildAtPosition { parent_id, card_id, target_index } => drops_child(
            m,
            parent_id,
            card_id,
            target_index as int,
            r,
            m2,
        ),
    }
}

/// The identifiers a successful command generated were new: a card it created
/// added a key that was not in use, and a note page it added has an identifier
/// that its card did not hold yet.
pub open spec fn generated_ids_fresh(
    c: Command,
    m: Map<u128, CardModel>,
    r: Result<(), DomainError>,
    m2: Map<u128, CardModel>,
) -> bool {
    match c {
        Command::CreateWorkspaceChildCard { .. } => r is Ok ==> exists|k: u128|
            #[trigger] m2.contains_key(k) && !m.contains_key(k),
        Command::CreateChildCard { .. } => r is Ok ==> exists|k: u128|
            #[trigger] m2.contains_key(k) && !m.contains_key(k),
        Command::CreateCard { .. } => r is Ok ==> exists|k: u128|
            #[trigger] m2.contains_key(k) && !m.contains_key(k),
        Command::AddNotePage { card_id, .. } => r is Ok ==> !has_note(
            m[key(card_id)].notes,
            m2[key(card_id)].notes.last().id,
        ),
        _ => true,
    }
}

/// A creation that added a key gave the new card a key that was not in use.
proof fn lemma_created_key_new(
    m: Map<u128, CardModel>,
    p: CardId,
    title: Seq<char>,
    description: Option<Seq<char>>,
    rc: Result<CardId, DomainError>,
    m2: Map<u128, CardModel>,
)
    requires
        creation(m, p, title, description, rc, m2),
        rc is Ok ==> exists|k: u128| #[trigger] m2.contains_key(k) && !m.contains_key(k),
    ensures
        rc matches Ok(id) ==> !m.contains_key(key(id)),
{
    if rc is Ok {
        let k = choose|k: u128| #[trigger] m2.contains_key(k) && !m.contains_key(k);
        assert(k == key(p) || k == key(rc->Ok_0));
    }
}

/// Every command keeps a well-formed registry well formed, whether it succeeds
/// or is refused, as long as the identifiers it generates are new.
pub proof fn lemma_command_keeps_well_formed(
    c: Command,
    m: Map<u128, CardModel>,
    r: Result<(), DomainError>,
    m2: Map<u128, CardModel>,
)
    requires
        well_formed(m),
        apply_outcome(c, m, r, m2),
        generated_ids_fresh(c, m, r, m2),
    ensures
        well_formed(m2),
{
    match c {
        Command::CreateWorkspaceChildCard { title, description } => {
            let rc = choose|rc: Result<CardId, DomainError>|
                #[trigger] workspace_creation(m, title@, opt_text(description), rc, m2) && r
                    == unit(rc);
            lemma_created_key_new(m, m[the_root(m)].id, title@, opt_text(description), rc, m2);
            lemma_workspace_creation_keeps_well_formed(m, title@, opt_text(description), rc, m2);
        },
        Command::CreateChildCard { title, description, parent_id } => {
            let rc = choose|rc: Result<CardId, DomainError>|
                #[trigger] creation(m, parent_id, title@, opt_text(description), rc, m2) && r
                    == unit(rc);
            lemma_created_key_new(m, parent_id, title@, opt_text(description), rc, m2);
            lemma_creation_keeps_well_formed(m, parent_id, title@, opt_text(description), rc, m2);
        },
        Command::CreateCard { title, description, parent_id } => match parent_id {
            Some(p) => {
                let rc = choose|rc: Result<CardId, DomainError>|
                    #[trigger] creation(m, p, title@, opt_text(description), rc, m2) && r == unit(
                        rc,
                    );
                lemma_created_key_new(m, p, title@, opt_text(description), rc, m2);
                lemma_creation_keeps_well_formed(m, p, title@, opt_text(description), rc, m2);
            },
            None => {
                let rc = choose|rc: Result<CardId, DomainError>|
                    #[trigger] workspace_creation(m, title@, opt_text(description), rc, m2) && r
                        == unit(rc);
                lemma_created_key_new(m, m[the_root(m)].id, title@, opt_text(description), rc, m2);
                lemma_workspace_creation_keeps_well_formed(
                    m,
                    title@,
                    opt_text(description),
                    rc,
                    m2,
                );
            },
        },
        Command::RenameCard { id, title } => {
            lemma_rename_card_keeps_well_formed(m, id, title@, r, m2);
        },
        Command::SetCardDescription { id, description } => {
            lemma_set_description_keeps_well_formed(m, id, opt_text(description), r, m2);
        },
        Command::UpdateCardDetails { id, title, description, due_date } => {
            lemma_update_details_keeps_well_formed(
                m,
                id,
                opt_text(title),
                opt_opt_text(description),
                opt_opt_date(due_date),
                r,
                m2,
            );
        },
        Command::AddNotePage { card_id, title } => {
            let rn = choose|rn: Result<NotePageId, DomainError>|
                #[trigger] adds_note(m, card_id, title@, rn, m2) && r == unit(rn);
            lemma_add_note_keeps_well_formed(m, card_id, title@, rn, m2);
        },
        Command::RenameNotePage { card_id, note_page_id, title } => {
            lemma_rename_note_keeps_well_formed(m, card_id, note_page_id, title@, r, m2);
        },
        Command::SaveNotePageBody { card_id, note_page_id, body } => {
            lemma_save_note_body_keeps_well_formed(m, card_id, note_page_id, body@, r, m2);
        },
        Command::DeleteNotePage { card_id, note_page_id } => {
            lemma_delete_note_keeps_well_formed(m, card_id, note_page_id, r, m2);
        },
        Command::SetDueDate { card_id, due_date } => {
            lemma_due_date_keeps_well_formed(m, card_id, Some(due_date@), r, m2);
        },
        Command::ClearDueDate { card_id } => {
            lemma_due_date_keeps_well_formed(m, card_id, None, r, m2);
        },
        Command::DeleteCard { id, strategy } => {
            lemma_delete_keeps_well_formed(m, id, strategy, r, m2);
        },
        Command::ReparentCard { card_id, new_parent_id } => {
            if r is Ok {
                lemma_reparent_keeps_well_formed(m, card_id, new_parent_id, r, m2);
            } else if m.contains_key(key(card_id)) && m[key(card_id)].parent_id is Some {
                assert(card_ok(m, key(card_id)));
                let o = m[key(card_id)].parent_id->0;
                assert(adopted(m, new_parent_id, card_id).contains_key(key(o)));
            }
        },
        Command::ReorderChildren { parent_id, ordered_ids } => {
            lemma_reorder_keeps_well_formed(m, parent_id, ordered_ids@, r, m2);
        },
        Command::DropChildAtPosition { parent_id, card_id, target_index } => {
            lemma_drop_child_keeps_well_formed(m, parent_id, card_id, target_index as int, r, m2);
        },
    }
}

impl Command {
    /// The name of the command's variant.
    pub fn name(&self) -> (r: &'static str)
        ensures
            r@ == command_name(*self),
    {
        match self {
            Command::CreateWorkspaceChildCard { .. } => "CreateWorkspaceChildCard",
            Command::CreateChildCard { .. } => "CreateChildCard",
            Command::CreateCard { .. } => "CreateCard",
            Command::RenameCard { .. } => "RenameCard",
            Command::SetCardDescription { .. } => "SetCardDescription",
            Command::UpdateCardDetails { .. } => "UpdateCardDetails",
            Command::AddNotePage { .. } => "AddNotePage",
            Command::RenameNotePage { .. } => "RenameNotePage",
            Command::SaveNotePageBody { .. } => "SaveNotePageBody",
            Command::DeleteNotePage { .. } => "DeleteNotePage",
            Command::SetDueDate { .. } => "SetDueDate",
            Command::ClearDueDate { .. } => "ClearDueDate",
            Command::DeleteCard { .. } => "DeleteCard",
            Command::ReparentCard { .. } => "ReparentCard",
            Command::ReorderChildren { .. } => "ReorderChildren",
            Command::DropChildAtPosition { .. } => "DropChildAtPosition",
        }
    }

    /// Applies the command to the registry.
    pub fn apply(self, registry: &mut CardRegistry) -> (r: Result<(), DomainError>)
        requires
            apply_decidable(self, old(registry)@),
        ensures
            apply_outcome(self, old(registry)@, r, final(registry)@),
    {
        let ghost c = self;
        match self {
            Command::CreateWorkspaceChildCard { title, description } => {
                let rc = registry.create_card(title, description, None);
                match rc {
                    Ok(_) => Ok(()),
                    Err(e) => Err(e),
                }
            },
            Command::CreateChildCard { title, description, parent_id } => {
                let rc = registry.create_card(title, description, Some(parent_id));
                match rc {
                    Ok(_) => Ok(()),
                    Err(e) => Err(e),
                }
            },
            Command::CreateCard { title, description, parent_id } => {
                let rc = registry.create_card(title, description, parent_id);
                match rc {
                    Ok(_) => Ok(()),
                    Err(e) => Err(e),
                }
            },
            Command::RenameCard { id, title } => registry.rename_card(id, title),
            Command::SetCardDescription { id, description } => registry.set_card_description(
                id,
                description,
            ),
            Command::UpdateCardDetails { id, title, description, due_date } => {
                registry.update_card_details(id, title, description, due_date)
            },
            Command::AddNotePage { card_id, title } => {
                let rn = registry.add_note_page(card_id, title);
                match rn {
                    Ok(_) => Ok(()),
                    Err(e) => Err(e),
                }
            },
            Command::RenameNotePage { card_id, note_page_id, title } => {
                registry.rename_note_page(card_id, note_page_id, title)
            },
            Command::SaveNotePageBody { card_id, note_page_id, body } => {
                registry.save_note_page_body(card_id, note_page_id, body)
            },
            Command::DeleteNotePage { card_id, note_page_id } => {
                registry.delete_note_page(card_id, note_page_id)
            },
            Command::SetDueDate { card_id, due_date } => registry.set_due_date(card_id, due_date),
            Command::ClearDueDate { card_id } => registry.clear_due_date(card_id),
            Command::DeleteCard { id, strategy } => registry.delete_card(id, strategy),
            Command::ReparentCard { card_id, new_parent_id } => {
                registry.reparent_card(card_id, new_parent_id)
            },
            Command::ReorderChildren { parent_id, ordered_ids } => {
                registry.reorder_children(parent_id, ordered_ids)
            },
            Command::DropChildAtPosition { parent_id, card_id, target_index } => {
                registry.drop_child_at_position(parent_id, card_id, target_index)
            },
        }
    }
}

/// Every outcome that `apply_outcome` allows for `c` on `m` is the refusal `e`.
pub open spec fn refused_with(c: Command, m: Map<u128, crate::card::CardModel>, e: DomainError) -> bool {
    forall|r2: Result<(), DomainError>, m2: Map<u128, crate::card::CardModel>|
        #[trigger] apply_outcome(c, m, r2, m2) ==> r2 == Err::<(), DomainError>(e)
}

/// Applies a command and then checks the registry: a command that succeeded
/// but left the registry malformed reports the check's error. The registry
/// keeps whatever the command did. A refusal of the command is returned as it
/// is. On a well-formed registry, with new identifiers for what the command
/// creates, the check never refuses a command that succeeded.
pub fn execute(command: Command, registry: &mut CardRegistry) -> (r: Result<(), DomainError>)
    requires
        apply_decidable(command, old(registry)@),
    ensures
        exists|applied: Result<(), DomainError>|
            #[trigger] apply_outcome(command, old(registry)@, applied, final(registry)@) && (
            applied is Err ==> r == applied) && (applied is Ok ==> (r is Ok <==> well_formed(
                final(registry)@,
            )) && (r matches Err(e) ==> e is InvalidOperation) && (r matches Err(
                DomainError::InvalidOperation(msg),
            ) ==> validation_fault_text(final(registry)@, msg@))) && (well_formed(old(registry)@)
                && generated_ids_fresh(command, old(registry)@, applied, final(registry)@) ==> (
            applied is Ok ==> r is Ok)),
        forall|e: DomainError| #[trigger] refused_with(command, old(registry)@, e) ==> r == Err::<
            (),
            DomainError,
        >(e),
        r is Ok ==> well_formed(final(registry)@),
{
    let ghost c = command;
    let result = command.apply(registry);
    match result {
        Ok(()) => {
            let checked = registry.validate();
            assert(apply_outcome(c, old(registry)@, result, registry@));
            proof {
                if well_formed(old(registry)@) && generated_ids_fresh(
                    c,
                    old(registry)@,
                    result,
                    registry@,
                ) {
                    lemma_command_keeps_well_formed(c, old(registry)@, result, registry@);
                }
            }
            checked
        },
        Err(e) => {
            assert(apply_outcome(c, old(registry)@, result, registry@));
            Err(e)
        },
    }
}

/// Finds whether `command` can be applied to `registry` as `apply` requires.
/// A move can, unless it gets as far as walking up from the new parent and
/// that walk runs in a cycle. A deletion that moves the cards below a card to
/// its parent can, unless some card is its own ancestor. A deletion that
/// deletes the cards below a card walks the lists of children, and is let
/// through only when the registry passes its check. Every other command can be
/// applied. A command that is not let through gets the check's error.
pub fn check_applicable(command: &Command, registry: &CardRegistry) -> (r: Result<(), DomainError>)
    ensures
        r is Ok ==> apply_decidable(*command, registry@),
        match *command {
            Command::DeleteCard { id, strategy } => r is Ok <==> (!single_root(registry@) || id
                == registry@[the_root(registry@)].id || !registry@.contains_key(key(id))
                || registry@[key(id)].children.len() == 0 || strategy == DeleteStrategy::Reject
                || (strategy == DeleteStrategy::ReparentToGrandparent && acyclic(registry@))
                || well_formed(registry@)),
            Command::ReparentCard { card_id, new_parent_id } => r is Ok <==> reparent_decidable(
                registry@,
                card_id,
                new_parent_id,
            ),
            _ => r is Ok,
        },
        r matches Err(e) ==> !well_formed(registry@) && (e matches DomainError::InvalidOperation(
            msg,
        ) && validation_fault_text(registry@, msg@)),
{
    match command {
        Command::DeleteCard { id, strategy } => {
            let workspace_id = match registry.workspace_card_id() {
                Ok(w) => w,
                Err(_) => {
                    return Ok(());
                },
            };
            if *id == workspace_id {
                return Ok(());
            }
            if *strategy == DeleteStrategy::Reject {
                return Ok(());
            }
            match registry.get_card(*id) {
                Ok(card) => {
                    if card.children_ids().len() == 0 {
                        return Ok(());
                    }
                },
                Err(_) => {
                    return Ok(());
                },
            }
            if *strategy == DeleteStrategy::ReparentToGrandparent && registry.is_acyclic() {
                return Ok(());
            }
            registry.validate()
        },
        Command::ReparentCard { card_id, new_parent_id } => {
            let workspace_id = match registry.workspace_card_id() {
                Ok(w) => w,
                Err(_) => {
                    return Ok(());
                },
            };
            if *card_id == workspace_id || *card_id == *new_parent_id || registry.walk_stops_from(
                *new_parent_id,
                *card_id,
            ) {
                return Ok(());
            }
            let r = registry.validate();
            proof {
                if r is Ok {
                    lemma_well_formed_reparent_decidable(registry@, *card_id, *new_parent_id);
                }
            }
            r
        },
        _ => Ok(()),
    }
}

/// The diagnostic message for a command that failed with `e`.
pub open spec fn command_failed_text(c: Command, e: DomainError) -> Seq<char> {
    "Application command '"@ + command_name(c) + "' failed: "@ + error_text(e)
}

/// The diagnostic message for a command that succeeded but left the registry
/// malformed, which its check reported with `e`.
pub open spec fn command_invalid_state_text(c: Command, e: DomainError) -> Seq<char> {
    "Application command '"@ + command_name(c) + "' resulted in invalid state: "@ + error_text(
        e,
    )
}

/// An error diagnostic of the command layer, with its message.
pub open spec fn command_diagnostic(timestamp_unix_secs: u64, message: Seq<char>) -> DiagnosticModel {
    DiagnosticModel { timestamp_unix_secs, level: "ERROR"@, target: "application"@, message }
}

/// The text `a`, then `name`, then `b`, then the error's message.
fn command_error_message(a: &str, name: &str, b: &str, e: &DomainError) -> (r: String)
    ensures
        r@ == a@ + name@ + b@ + error_text(*e),
{
    let mut m = String::from_str(a);
    m.append(name);
    m.append(b);
    let t = e.message();
    m.append(t.as_str());
    m
}

/// Executes a command as `execute` does and records an error diagnostic, at
/// `timestamp_unix_secs`, when it fails: naming the command and giving its own
/// error, or the check's error when the command left the registry malformed.
/// Nothing is recorded when it succeeds.
pub fn execute_recorded(
    command: Command,
    registry: &mut CardRegistry,
    diagnostics: &mut DiagnosticsBuffer,
    timestamp_unix_secs: u64,
) -> (r: Result<(), DomainError>)
    requires
        apply_decidable(command, old(registry)@),
    ensures
        exists|applied: Result<(), DomainError>|
            #[trigger] apply_outcome(command, old(registry)@, applied, final(registry)@) && (
            applied matches Err(e) ==> r == applied && final(diagnostics).entries()
                == after_record(
                old(diagnostics).entries(),
                old(diagnostics).capacity(),
                command_diagnostic(timestamp_unix_secs, command_failed_text(command, e)),
            )) && (applied is Ok ==> (r is Ok <==> well_formed(final(registry)@)) && (r is Ok
                ==> final(diagnostics).entries() == old(diagnostics).entries()) && (r matches Err(
                e,
            ) ==> e is InvalidOperation && (e matches DomainError::InvalidOperation(msg)
                && validation_fault_text(final(registry)@, msg@)) && final(diagnostics).entries()
                == after_record(
                old(diagnostics).entries(),
                old(diagnostics).capacity(),
                command_diagnostic(timestamp_unix_secs, command_invalid_state_text(command, e)),
            ))),
        forall|e: DomainError| #[trigger] refused_with(command, old(registry)@, e) ==> r == Err::<
            (),
            DomainError,
        >(e),
        final(diagnostics).capacity() == old(diagnostics).capacity(),
        r is Ok ==> well_formed(final(registry)@),
{
    let ghost c = command;
    let name = command.name();
    let result = command.apply(registry);
    assert(apply_outcome(c, old(registry)@, result, registry@));
    match result {
        Ok(()) => {
            match registry.validate() {
                Ok(()) => Ok(()),
                Err(e) => {
                    let m = command_error_message(
                        "Application command '",
                        name,
                        "' resulted in invalid state: ",
                        &e,
                    );
                    diagnostics.record_diagnostic(
                        DiagnosticEntry {
                            timestamp_unix_secs,
                            level: String::from_str("ERROR"),
                            target: String::from_str("application"),
                            message: m,
                        },
                    );
                    Err(e)
                },
            }
        },
        Err(e) => {
            let m = command_error_message("Application command '", name, "' failed: ", &e);
            diagnostics.record_diagnostic(
                DiagnosticEntry {
                    timestamp_unix_secs,
                    level: String::from_str("ERROR"),
                    target: String::from_str("application"),
                    message: m,
                },
            );
            Err(e)
        },
    }
}

/// A card and its immediate children, in order.
pub struct CardView<'a> {
    /// The card shown as the board.
    pub card: &'a Card,
    /// Its immediate children, in display order.
    pub children: Vec<&'a Card>,
}

/// What building the view of card `id` gives: `CardNotFound` for the card or
/// for the first of its children that is not stored; otherwise the card and
/// its children.
pub open spec fn card_view_outcome<'a>(
    m: Map<u128, crate::card::CardModel>,
    id: CardId,
    r: Result<CardView<'a>, DomainError>,
) -> bool {
    &&& !m.contains_key(key(id)) ==> (r matches Err(e) && e == DomainError::CardNotFound(id))
    &&& m.contains_key(key(id)) && (forall|i: int|
        0 <= i < m[key(id)].children.len() ==> m.contains_key(
            key(#[trigger] m[key(id)].children[i]),
        )) ==> (r matches Ok(v) && v.card@ == m[key(id)] && v.children@.len()
        == m[key(id)].children.len() && forall|i: int|
        0 <= i < v.children@.len() ==> (#[trigger] v.children@[i])@ == m[key(
            m[key(id)].children[i],
        )])
    &&& forall|i: int|
        m.contains_key(key(id)) && #[trigger] first_missing_child(m, m[key(id)].children, i)
            ==> (r matches Err(e) && e == DomainError::CardNotFound(m[key(id)].children[i]))
}

/// The view of a card and its immediate children.
pub fn build_card_view(card_id: CardId, registry: &CardRegistry) -> (r: Result<
    CardView<'_>,
    DomainError,
>)
    ensures
        card_view_outcome(registry@, card_id, r),
{
    let card = registry.get_card(card_id)?;
    let children = registry.get_children(card_id)?;
    Ok(CardView { card, children })
}

/// The view of a card shown as a board.
pub fn build_board_view(card_id: CardId, registry: &CardRegistry) -> (r: Result<
    CardView<'_>,
    DomainError,
>)
    ensures
        card_view_outcome(registry@, card_id, r),
{
    build_card_view(card_id, registry)
}

/// The view of a card shown as a preview.
pub fn build_card_preview_view(card_id: CardId, registry: &CardRegistry) -> (r: Result<
    CardView<'_>,
    DomainError,
>)
    ensures
        card_view_outcome(registry@, card_id, r),
{
    build_card_view(card_id, registry)
}

} // verus!
