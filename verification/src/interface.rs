//! Pure helpers behind the user interface: reordering after a drag, the classes
//! of drop zones and buttons, and what a card shows.

use crate::application::{CardView, Command};
use crate::registry::{initial_registry, CardRegistry};
use crate::card::{opt_text, Card};
use crate::registry::mutations::{opt_opt_date, opt_opt_text};
use crate::text::{is_blank, is_blank_str, texts_equal, trim, trimmed};
use crate::due_date::{chrono_ymd_normal_form, current_local_date, text_less, ymd_shaped, DueDate};
use crate::error::{error_text, DomainError};
use crate::ids::{lemma_digit_value, lemma_ulid_text_roundtrip, ulid_decoded, ulid_text, CardId};
use vstd::arithmetic::power::pow;
use crate::ordering::{
    contains_value, landing, lemma_remove_all, moved, remove_all, remove_value, SameValue,
};
use vstd::string::*;
use vstd::prelude::*;

verus! {

/// Reorders a list by moving one item to a target index after removing the
/// dragged item; a target past the end puts it last.
pub fn reorder_ids<T: SameValue>(ordered_ids: &[T], dragged_id: T, target_index: usize) -> (r:
    Vec<T>)
    ensures
        r@ == moved(ordered_ids@, dragged_id, target_index as int),
{
    let mut r = remove_value(ordered_ids, dragged_id);
    let at = if target_index < r.len() {
        target_index
    } else {
        r.len()
    };
    assert(at == landing(target_index as int, r@.len() as int));
    r.insert(at, dragged_id);
    r
}

/// The text before a dragged card's identifier.
pub open spec fn card_payload_prefix() -> Seq<char> {
    seq!['c', 'a', 'r', 'd', ':']
}

/// The text between a dragged card's identifier and its parent's.
pub open spec fn parent_payload_infix() -> Seq<char> {
    seq![':', 'p', 'a', 'r', 'e', 'n', 't', ':']
}

/// The drag payload for a card on its parent's board: `card:<id>:parent:<parent>`.
pub open spec fn card_drag_payload_text(card: CardId, parent: CardId) -> Seq<char> {
    card_payload_prefix() + ulid_text(card.0) + parent_payload_infix() + ulid_text(parent.0)
}

/// `s` up to its first `:` (the first field of `s` split at `:`).
pub open spec fn until_colon(s: Seq<char>) -> Seq<char>
    decreases s.len(),
{
    if s.len() == 0 || s[0] == ':' {
        Seq::empty()
    } else {
        seq![s[0]] + until_colon(s.drop_first())
    }
}

/// The card a drag payload names: the payload starts with `card:`, and the text
/// after it, up to the next `:`, is a card identifier.
pub open spec fn payload_card_id(payload: Seq<char>) -> Option<CardId> {
    if payload.len() >= 5 && payload.take(5) == card_payload_prefix() {
        match ulid_decoded(until_colon(payload.skip(5))) {
            Some(v) => Some(CardId(v)),
            None => None,
        }
    } else {
        None
    }
}

proof fn lemma_until_colon(s: Seq<char>, j: int)
    requires
        0 <= j <= s.len(),
        forall|i: int| 0 <= i < j ==> s[i] != ':',
        j == s.len() || s[j] == ':',
    ensures
        until_colon(s) == s.take(j),
    decreases j,
{
    if j == 0 {
        assert(s.take(0) =~= Seq::<char>::empty());
    } else {
        lemma_until_colon(s.drop_first(), j - 1);
        assert(s.take(j) =~= seq![s[0]] + s.drop_first().take(j - 1));
    }
}

/// Builds the drag payload of a card shown on its parent's board.
pub fn card_drag_payload(card: CardId, parent: CardId) -> (r: String)
    ensures
        r@ == card_drag_payload_text(card, parent),
{
    let mut r = String::from_str("card:");
    let id_text = card.to_text();
    r.append(id_text.as_str());
    r.append(":parent:");
    let parent_text = parent.to_text();
    r.append(parent_text.as_str());
    proof {
        reveal_strlit("card:");
        reveal_strlit(":parent:");
    }
    r
}

/// The card that a drag payload names, if it names one.
pub fn dragged_card_id(payload: &str) -> (r: Option<CardId>)
    ensures
        r == payload_card_id(payload@),
{
    let n = payload.unicode_len();
    if n < 5 || payload.get_char(0) != 'c' || payload.get_char(1) != 'a' || payload.get_char(2)
        != 'r' || payload.get_char(3) != 'd' || payload.get_char(4) != ':' {
        proof {
            if n >= 5 {
                assert(card_payload_prefix()[0] == 'c');
                assert(card_payload_prefix()[1] == 'a');
                assert(card_payload_prefix()[2] == 'r');
                assert(card_payload_prefix()[3] == 'd');
                assert(card_payload_prefix()[4] == ':');
                if payload@.take(5) == card_payload_prefix() {
                    assert(payload@.take(5)[0] == payload@[0]);
                    assert(payload@.take(5)[1] == payload@[1]);
                    assert(payload@.take(5)[2] == payload@[2]);
                    assert(payload@.take(5)[3] == payload@[3]);
                    assert(payload@.take(5)[4] == payload@[4]);
                }
            }
        }
        return None;
    }
    assert(payload@.take(5) =~= card_payload_prefix());
    let mut j: usize = 5;
    while j < n && payload.get_char(j) != ':'
        invariant
            n == payload@.len(),
            5 <= j <= n,
            forall|i: int| 5 <= i < j ==> payload@[i] != ':',
        decreases n - j,
    {
        j = j + 1;
    }
    let field = payload.substring_char(5, j);
    proof {
        let rest = payload@.skip(5);
        assert forall|i: int| 0 <= i < j - 5 implies rest[i] != ':' by {
            assert(rest[i] == payload@[i + 5]);
        }
        if j < n {
            assert(rest[j - 5] == payload@[j as int]);
        }
        lemma_until_colon(rest, j - 5);
        assert(rest.take(j - 5) =~= field@);
    }
    CardId::from_text(field)
}

/// A card's drag payload names that card: reading back the payload built for a
/// card on its parent's board gives the card.
pub proof fn lemma_drag_payload_names_card(card: CardId, parent: CardId)
    ensures
        payload_card_id(card_drag_payload_text(card, parent)) == Some(card),
{
    let p = card_drag_payload_text(card, parent);
    let t = ulid_text(card.0);
    let rest = t + parent_payload_infix() + ulid_text(parent.0);
    assert(p.take(5) =~= card_payload_prefix());
    assert(p.skip(5) =~= rest);
    assert forall|i: int| 0 <= i < 26 implies rest[i] != ':' by {
        assert(rest[i] == t[i]);
        let d = (card.0 as int / pow(32, (25 - i) as nat)) % 32;
        lemma_digit_value(d);
    }
    assert(rest[26] == ':');
    lemma_until_colon(rest, 26);
    assert(rest.take(26) =~= t);
    lemma_ulid_text_roundtrip(card.0);
}

/// The new order after dragging `dragged_id` to `target_index`, or nothing when
/// the drag leaves the order as it was (then no command needs to run).
pub fn reorder_if_changed(ordered_ids: &[u128], dragged_id: u128, target_index: usize) -> (r:
    Option<Vec<u128>>)
    ensures
        match r {
            Some(v) => v@ == moved(ordered_ids@, dragged_id, target_index as int) && v@
                != ordered_ids@,
            None => moved(ordered_ids@, dragged_id, target_index as int) == ordered_ids@,
        },
{
    let reordered = reorder_ids(ordered_ids, dragged_id, target_index);
    if reordered.len() != ordered_ids.len() {
        return Some(reordered);
    }
    let mut i: usize = 0;
    while i < reordered.len()
        invariant
            reordered@.len() == ordered_ids@.len(),
            reordered@ == moved(ordered_ids@, dragged_id, target_index as int),
            i <= reordered@.len(),
            forall|k: int| 0 <= k < i ==> reordered@[k] == ordered_ids@[k],
        decreases reordered@.len() - i,
    {
        if reordered[i] != ordered_ids[i] {
            return Some(reordered);
        }
        i = i + 1;
    }
    assert(reordered@ =~= ordered_ids@);
    None
}

/// The commands that dropping a card at `target_index` on `board_id`'s board
/// runs, in order: a move under the board when the card sits under another
/// parent, then its placement among the board's children.
pub open spec fn drop_commands(
    m: Map<u128, crate::card::CardModel>,
    card_id: CardId,
    board_id: CardId,
    target_index: usize,
) -> Seq<Command> {
    let place = Command::DropChildAtPosition { parent_id: board_id, card_id, target_index };
    if m.contains_key(card_id.0) && m[card_id.0].parent_id is Some && m[card_id.0].parent_id->0
        != board_id {
        seq![Command::ReparentCard { card_id, new_parent_id: board_id }, place]
    } else {
        seq![place]
    }
}

/// The commands to run when a card is dropped at `target_index` on the board of
/// `board_id`.
pub fn card_drop_commands(
    registry: &CardRegistry,
    card_id: CardId,
    board_id: CardId,
    target_index: usize,
) -> (r: Vec<Command>)
    ensures
        r@ == drop_commands(registry@, card_id, board_id, target_index),
{
    let place = Command::DropChildAtPosition { parent_id: board_id, card_id, target_index };
    let mut r: Vec<Command> = Vec::new();
    match registry.get_card(card_id) {
        Ok(card) => match card.parent_id() {
            Some(old_parent) => {
                if old_parent != board_id {
                    r.push(Command::ReparentCard { card_id, new_parent_id: board_id });
                }
            },
            None => {},
        },
        Err(_) => {},
    }
    r.push(place);
    r
}

/// The warning to show after an action: none when it succeeded, the error's
/// message when it failed.
pub fn result_warning(result: &Result<(), DomainError>) -> (r: Option<String>)
    ensures
        opt_text(r) == match *result {
            Ok(_) => None,
            Err(e) => Some(error_text(e)),
        },
{
    match result {
        Ok(()) => None,
        Err(e) => Some(e.message()),
    }
}

/// The registry the app starts with, and the warning it shows: the saved
/// registry when there is one; a new workspace when nothing was saved; a new
/// workspace and the error's message when loading failed.
pub fn startup_registry(loaded: Result<Option<CardRegistry>, DomainError>) -> (r: (
    CardRegistry,
    Option<String>,
))
    ensures
        match loaded {
            Ok(Some(saved)) => r.0@ == saved@ && r.1 is None,
            Ok(None) => (exists|id: CardId| r.0@ == #[trigger] initial_registry(id)) && r.1 is None,
            Err(e) => (exists|id: CardId| r.0@ == #[trigger] initial_registry(id)) && opt_text(r.1)
                == Some(error_text(e)),
        },
{
    match loaded {
        Ok(Some(saved)) => (saved, None),
        Ok(None) => (CardRegistry::new(), None),
        Err(e) => {
            let message = e.message();
            (CardRegistry::new(), Some(message))
        },
    }
}

/// What is being dragged, if anything.
#[derive(Clone, Copy, Debug, PartialEq, Eq, Structural, Default)]
pub enum DraggedItemKind {
    /// Nothing is being dragged.
    #[default]
    Nothing,
    /// A card is being dragged.
    Card,
}

/// Categories of drop zones.
#[derive(Clone, Copy, Debug, PartialEq, Eq, Structural)]
pub enum DropZoneKind {
    /// A drop zone for the whole board or a major section.
    Board,
    /// A drop zone for a specific card.
    Card,
}

/// The classes of a drop zone: hidden while nothing is dragged, active under
/// the pointer, and marked as a target otherwise.
pub open spec fn drop_zone_text(kind: DropZoneKind, is_active: bool, dragged: DraggedItemKind) -> Seq<
    char,
> {
    match kind {
        DropZoneKind::Board => if dragged == DraggedItemKind::Nothing {
            "app-drop-zone app-drop-zone--board app-drop-zone--hidden"@
        } else if is_active {
            "app-drop-zone app-drop-zone--board app-drop-zone--active"@
        } else {
            "app-drop-zone app-drop-zone--board app-drop-zone--dragging"@
        },
        DropZoneKind::Card => if dragged == DraggedItemKind::Nothing {
            "app-drop-zone app-drop-zone--card app-drop-zone--hidden"@
        } else if is_active {
            "app-drop-zone app-drop-zone--card app-drop-zone--active"@
        } else {
            "app-drop-zone app-drop-zone--card app-drop-zone--dragging"@
        },
    }
}

/// The CSS classes for a drop zone in its current state.
pub fn drop_zone_classes(
    kind: DropZoneKind,
    is_active: bool,
    dragged_item_kind: DraggedItemKind,
) -> (r: &'static str)
    ensures
        r@ == drop_zone_text(kind, is_active, dragged_item_kind),
{
    match kind {
        DropZoneKind::Board => match (dragged_item_kind, is_active) {
            (DraggedItemKind::Nothing, _) => "app-drop-zone app-drop-zone--board app-drop-zone--hidden",
            (_, true) => "app-drop-zone app-drop-zone--board app-drop-zone--active",
            _ => "app-drop-zone app-drop-zone--board app-drop-zone--dragging",
        },
        DropZoneKind::Card => match (dragged_item_kind, is_active) {
            (DraggedItemKind::Nothing, _) => "app-drop-zone app-drop-zone--card app-drop-zone--hidden",
            (_, true) => "app-drop-zone app-drop-zone--card app-drop-zone--active",
            _ => "app-drop-zone app-drop-zone--card app-drop-zone--dragging",
        },
    }
}

/// Where a drop zone sits: on the board's surface or in a lane of cards.
#[derive(Clone, Copy, Debug, PartialEq, Eq, Structural)]
pub enum DropZoneMode {
    BoardSurface,
    CardLane,
}

/// The classes of a drop zone together with those of its placement.
pub fn styled_drop_zone_classes(
    mode: DropZoneMode,
    is_active: bool,
    dragged_item_kind: DraggedItemKind,
) -> (r: String)
    ensures
        r@ == match mode {
            DropZoneMode::BoardSurface => drop_zone_text(
                DropZoneKind::Board,
                is_active,
                dragged_item_kind,
            ) + " min-h-[3.25rem] rounded-2xl"@,
            DropZoneMode::CardLane => drop_zone_text(DropZoneKind::Card, is_active, dragged_item_kind)
                + " app-drop-slot-lane"@,
        },
{
    let kind = match mode {
        DropZoneMode::BoardSurface => DropZoneKind::Board,
        DropZoneMode::CardLane => DropZoneKind::Card,
    };
    let mut classes = String::from_str(drop_zone_classes(kind, is_active, dragged_item_kind));
    match mode {
        DropZoneMode::BoardSurface => classes.append(" min-h-[3.25rem] rounded-2xl"),
        DropZoneMode::CardLane => classes.append(" app-drop-slot-lane"),
    }
    classes
}

/// The classes of a button in the main toolbar.
pub fn toolbar_button_classes() -> (r: &'static str)
    ensures
        r@ == "app-bar-button"@,
{
    "app-bar-button"
}

/// The classes of an icon-only button in the main toolbar.
pub fn toolbar_icon_button_classes() -> (r: &'static str)
    ensures
        r@ == "app-bar-button"@,
{
    "app-bar-button"
}

/// The classes of an icon within a toolbar button.
pub fn toolbar_action_icon_classes() -> (r: &'static str)
    ensures
        r@ == "app-bar-button-icon"@,
{
    "app-bar-button-icon"
}

/// The classes of a label within a toolbar button.
pub fn toolbar_button_label_classes() -> (r: &'static str)
    ensures
        r@ == "app-toolbar-label"@,
{
    "app-toolbar-label"
}

/// The classes of a primary action button on a surface.
pub fn surface_action_button_classes() -> (r: &'static str)
    ensures
        r@ == "app-surface-action-button"@,
{
    "app-surface-action-button"
}

/// The classes of an icon-only button on a surface.
pub fn surface_icon_button_classes() -> (r: &'static str)
    ensures
        r@ == "app-surface-icon-button"@,
{
    "app-surface-icon-button"
}

/// The classes of a destructive icon-only button on a surface.
pub fn surface_destructive_icon_button_classes() -> (r: &'static str)
    ensures
        r@ == "app-surface-icon-button app-surface-icon-button--danger"@,
{
    "app-surface-icon-button app-surface-icon-button--danger"
}

/// The command that creates a card: under `parent_id` when given, under the
/// workspace card otherwise.
pub fn build_create_card_command(
    title: String,
    description: Option<String>,
    parent_id: Option<CardId>,
) -> (r: Result<Command, DomainError>)
    ensures
        match parent_id {
            Some(p) => r == Ok::<Command, DomainError>(
                Command::CreateChildCard { title, description, parent_id: p },
            ),
            None => r == Ok::<Command, DomainError>(
                Command::CreateWorkspaceChildCard { title, description },
            ),
        },
{
    match parent_id {
        Some(parent_id) => Ok(Command::CreateChildCard { title, description, parent_id }),
        None => Ok(Command::CreateWorkspaceChildCard { title, description }),
    }
}

/// The text of a due date, or the empty text without one.
pub fn due_date_string(due_date: Option<&DueDate>) -> (r: String)
    ensures
        r@ == match due_date {
            Some(d) => d@,
            None => Seq::<char>::empty(),
        },
{
    match due_date {
        Some(d) => String::from_str(d.as_str()),
        None => String::new(),
    }
}

/// The message shown to the user for a failed command.
pub fn user_message_for_command_error(error: &DomainError) -> (r: String)
    ensures
        r@ == error_text(*error),
{
    error.message()
}

/// Toggling an id twice gives back a list that did not hold it: the first
/// toggle appends it, the second takes it out again.
pub proof fn lemma_toggle_twice_restores<T>(s: Seq<T>, id: T)
    requires
        !s.contains(id),
    ensures
        s.push(id).contains(id),
        remove_all(s.push(id), id) == s,
{
    assert(s.push(id)[s.len() as int] == id);
    assert(s.push(id).drop_last() =~= s);
    lemma_remove_all(s, id);
}

/// Takes `id` out of `values` when it is there, and appends it otherwise.
pub fn toggle_id<T: SameValue>(values: &mut Vec<T>, id: T)
    ensures
        old(values)@.contains(id) ==> final(values)@ == remove_all(old(values)@, id),
        !old(values)@.contains(id) ==> final(values)@ == old(values)@.push(id),
{
    if contains_value(values.as_slice(), id) {
        let kept = remove_value(values.as_slice(), id);
        *values = kept;
    } else {
        values.push(id);
    }
}

/// What a card shows on the board: its identifier, title and due date, whether
/// it is overdue, and the titles of its immediate children.
#[derive(Clone, Debug, PartialEq, Eq)]
pub struct CardDisplayData {
    /// Unique identifier for the card.
    pub id: CardId,
    /// The card's title.
    pub title: String,
    /// The due date's text, if any.
    pub due_date: Option<String>,
    /// Whether the due date has passed.
    pub is_overdue: bool,
    /// Titles of the immediate children, for a quick preview.
    pub preview_items: Vec<String>,
}

/// The display data of a card on the given day (`today`, as `YYYY-MM-DD`):
/// overdue when its due date sorts before `today`; the preview lists the titles
/// of the children in the given view, if any.
pub fn build_card_display_on(card: &Card, preview_view: Option<&CardView>, today: &str) -> (r:
    CardDisplayData)
    ensures
        r.id == card@.id,
        r.title@ == card@.title,
        match card@.due_date {
            Some(d) => r.due_date matches Some(t) && t@ == d && r.is_overdue == text_less(d, today@),
            None => r.due_date is None && !r.is_overdue,
        },
        match preview_view {
            Some(v) => r.preview_items@.len() == v.children@.len() && forall|i: int|
                0 <= i < v.children@.len() ==> (#[trigger] r.preview_items@[i])@
                    == v.children@[i]@.title,
            None => r.preview_items@.len() == 0,
        },
{
    let mut preview_items: Vec<String> = Vec::new();
    if let Some(view) = preview_view {
        let mut i: usize = 0;
        while i < view.children.len()
            invariant
                i <= view.children@.len(),
                preview_items@.len() == i,
                forall|j: int|
                    0 <= j < i ==> (#[trigger] preview_items@[j])@ == view.children@[j]@.title,
            decreases view.children@.len() - i,
        {
            preview_items.push(String::from_str(view.children[i].title()));
            i = i + 1;
        }
    }
    let (due_date, is_overdue) = match card.due_date() {
        Some(d) => (Some(String::from_str(d.as_str())), d.is_overdue_on(today)),
        None => (None, false),
    };
    CardDisplayData {
        id: card.id(),
        title: String::from_str(card.title()),
        due_date,
        is_overdue,
        preview_items,
    }
}

/// The display data of a card today, by the local clock: overdue when its due
/// date sorts before the `YYYY-MM-DD` text of the day that the clock gave.
pub fn build_card_display(card: &Card, preview_view: Option<&CardView>) -> (r: CardDisplayData)
    ensures
        r.id == card@.id,
        r.title@ == card@.title,
        match card@.due_date {
            Some(d) => r.due_date matches Some(t) && t@ == d && exists|today: Seq<char>|
                ymd_shaped(today) && r.is_overdue == text_less(d, today),
            None => r.due_date is None && !r.is_overdue,
        },
        match preview_view {
            Some(v) => r.preview_items@.len() == v.children@.len() && forall|i: int|
                0 <= i < v.children@.len() ==> (#[trigger] r.preview_items@[i])@
                    == v.children@[i]@.title,
            None => r.preview_items@.len() == 0,
        },
{
    let today = current_local_date();
    let r = build_card_display_on(card, preview_view, today.as_str());
    assert(card@.due_date matches Some(d) ==> ymd_shaped(today@) && r.is_overdue == text_less(
        d,
        today@,
    ));
    r
}

/// A form's text, trimmed, or nothing when it is blank.
pub open spec fn optional_text(input: Seq<char>) -> Option<Seq<char>> {
    if is_blank(input) {
        None
    } else {
        Some(trimmed(input))
    }
}

/// A form's text, trimmed, or nothing when it is blank.
fn optional_input(input: &str) -> (r: Option<String>)
    ensures
        opt_text(r) == optional_text(input@),
{
    let t = trim(input);
    if t.unicode_len() == 0 {
        None
    } else {
        Some(String::from_str(t))
    }
}

/// The command that the card creation form sends: the trimmed title, and the
/// trimmed description unless it is blank.
pub fn card_creation_command(input_title: &str, input_description: &str, parent_id: Option<CardId>) -> (r:
    Command)
    ensures
        r matches Command::CreateCard { title, description, parent_id: p } && title@ == trimmed(
            input_title@,
        ) && opt_text(description) == optional_text(input_description@) && p == parent_id,
{
    let title = String::from_str(trim(input_title));
    let description = optional_input(input_description);
    Command::CreateCard { title, description, parent_id }
}

/// The new title of an edited card, when its text changed.
pub open spec fn changed_title(initial: Seq<char>, input: Seq<char>) -> Option<Seq<char>> {
    if input != initial {
        Some(trimmed(input))
    } else {
        None
    }
}

/// The new description of an edited card, when its text changed: nothing for
/// a blank text.
pub open spec fn changed_description(initial: Seq<char>, input: Seq<char>) -> Option<
    Option<Seq<char>>,
> {
    if input != initial {
        Some(optional_text(input))
    } else {
        None
    }
}

/// The new due date of an edited card, when its text changed: nothing for a
/// blank text or one that is no date.
pub open spec fn changed_due_date(initial: Seq<char>, input: Seq<char>) -> Option<
    Option<Seq<char>>,
> {
    if input != initial {
        Some(
            if is_blank(input) {
                None
            } else {
                chrono_ymd_normal_form(trimmed(input))
            },
        )
    } else {
        None
    }
}

/// The command that the card edit form sends: each detail whose text changed,
/// or no command when none did.
pub fn card_edit_command(
    id: CardId,
    initial_title: &str,
    input_title: &str,
    initial_description: &str,
    input_description: &str,
    initial_due_date: &str,
    due_date_input: &str,
) -> (r: Option<Command>)
    ensures
        ({
            let t = changed_title(initial_title@, input_title@);
            let d = changed_description(initial_description@, input_description@);
            let u = changed_due_date(initial_due_date@, due_date_input@);
            if t is None && d is None && u is None {
                r is None
            } else {
                r matches Some(Command::UpdateCardDetails { id: i, title, description, due_date })
                    && i == id && opt_text(title) == t && opt_opt_text(description) == d
                    && opt_opt_date(due_date) == u
            }
        }),
{
    let title = if !texts_equal(input_title, initial_title) {
        Some(String::from_str(trim(input_title)))
    } else {
        None
    };
    let description = if !texts_equal(input_description, initial_description) {
        Some(optional_input(input_description))
    } else {
        None
    };
    let due_date = if !texts_equal(due_date_input, initial_due_date) {
        if is_blank_str(due_date_input) {
            Some(None)
        } else {
            match DueDate::parse(due_date_input) {
                Ok(d) => Some(Some(d)),
                Err(_) => Some(None),
            }
        }
    } else {
        None
    };
    if title.is_none() && description.is_none() && due_date.is_none() {
        None
    } else {
        Some(Command::UpdateCardDetails { id, title, description, due_date })
    }
}

} // verus!
