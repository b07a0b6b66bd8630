//! Cards: the single building block of the planner. Cards form a tree through
//! their parent reference and their ordered list of children. A card made on
//! its own (`new_root`, `new_child`) also gets a board of buckets that starts
//! with the "Unassigned" bucket, and a child names the bucket of its parent's
//! board that it sits in.

use crate::due_date::DueDate;
use crate::error::DomainError;
use crate::bucket::{Bucket, BucketModel};
use crate::ids::{ulid_text, BucketId, CardId, NotePageId};
use crate::note::{NoteModel, NotePage};
use crate::ordering::{landing, moved, remove_all};
use crate::text::{eq_ignoring_ascii_case, is_blank, is_blank_str, same_ignoring_ascii_case, trimmed};
use vstd::prelude::*;
use vstd::string::*;

verus! {

/// The abstract content of a card.
pub ghost struct CardModel {
    pub id: CardId,
    pub title: Seq<char>,
    pub description: Option<Seq<char>>,
    pub parent_id: Option<CardId>,
    pub children: Seq<CardId>,
    pub notes: Seq<NoteModel>,
    pub due_date: Option<Seq<char>>,
    pub bucket_id: Option<BucketId>,
    pub buckets: Seq<BucketModel>,
}

/// The name of the bucket every board starts with.
pub const UNASSIGNED_BUCKET_NAME: &'static str = "Unassigned";

/// The name of the bucket every board starts with, as text.
pub open spec fn unassigned_name() -> Seq<char> {
    "Unassigned"@
}

/// The view of an optional text.
pub open spec fn opt_text(o: Option<String>) -> Option<Seq<char>> {
    match o {
        Some(s) => Some(s@),
        None => None,
    }
}

/// The view of an optional due date.
pub open spec fn opt_date(o: Option<DueDate>) -> Option<Seq<char>> {
    match o {
        Some(d) => Some(d@),
        None => None,
    }
}

/// The views of a list of note pages.
pub open spec fn note_models(notes: Seq<NotePage>) -> Seq<NoteModel> {
    notes.map_values(|n: NotePage| n@)
}

/// `notes` with every page of identifier `id` taken out, the rest in order.
pub open spec fn notes_without(notes: Seq<NoteModel>, id: NotePageId) -> Seq<NoteModel>
    decreases notes.len(),
{
    if notes.len() == 0 {
        notes
    } else if notes.last().id == id {
        notes_without(notes.drop_last(), id)
    } else {
        notes_without(notes.drop_last(), id).push(notes.last())
    }
}

/// Whether some page in `notes` has identifier `id`.
pub open spec fn has_note(notes: Seq<NoteModel>, id: NotePageId) -> bool {
    exists|i: int| 0 <= i < notes.len() && (#[trigger] notes[i]).id == id
}

/// Whether `i` is the position of the first page of identifier `id`.
pub open spec fn first_note_at(notes: Seq<NoteModel>, id: NotePageId, i: int) -> bool {
    &&& 0 <= i < notes.len()
    &&& notes[i].id == id
    &&& forall|j: int| 0 <= j < i ==> (#[trigger] notes[j]).id != id
}

/// Whether position `i` of a reorder list is at fault: its identifier came
/// earlier in the list, or is no current child.
pub open spec fn reorder_fault_at(children: Seq<CardId>, ordered: Seq<CardId>, i: int) -> bool {
    ordered.subrange(0, i).contains(ordered[i]) || !children.contains(ordered[i])
}

/// Whether `i` is the first position at fault in a reorder list.
pub open spec fn first_reorder_fault(children: Seq<CardId>, ordered: Seq<CardId>, i: int) -> bool {
    &&& 0 <= i < ordered.len()
    &&& reorder_fault_at(children, ordered, i)
    &&& forall|j: int| 0 <= j < i ==> !#[trigger] reorder_fault_at(children, ordered, j)
}

/// Whether a reorder list is a rearrangement of `children`: as long, without
/// repeats, and made of current children.
pub open spec fn is_rearrangement(children: Seq<CardId>, ordered: Seq<CardId>) -> bool {
    &&& ordered.len() == children.len()
    &&& forall|i: int| 0 <= i < ordered.len() ==> !#[trigger] reorder_fault_at(children, ordered, i)
}

/// The text of the error for a reorder list of the wrong length.
pub open spec fn reorder_length_text() -> Seq<char> {
    "Reorder list length does not match existing children"@
}

/// The text of the error for a repeated identifier in a reorder list.
pub open spec fn reorder_duplicate_text(id: CardId) -> Seq<char> {
    "Duplicate child ID in reorder list: "@ + ulid_text(id.0)
}

/// The text of the error for a missing note page.
pub open spec fn note_not_found_text(id: NotePageId) -> Seq<char> {
    "Note page not found: "@ + ulid_text(id.0)
}



/// What renaming a card does: a blank title is refused and changes nothing;
/// any other replaces the title as given.
pub open spec fn rename_outcome(
    c: CardModel,
    title: Seq<char>,
    r: Result<(), DomainError>,
    c2: CardModel,
) -> bool {
    if is_blank(title) {
        r == Err::<(), DomainError>(DomainError::EmptyTitle) && c2 == c
    } else {
        r is Ok && c2 == (CardModel { title, ..c })
    }
}

/// What reordering a card's children by `ordered` does: it succeeds exactly
/// when `ordered` rearranges the children, and then takes that order; otherwise
/// the first fault found decides the error and nothing changes.
pub open spec fn reorder_outcome(
    c: CardModel,
    ordered: Seq<CardId>,
    r: Result<(), DomainError>,
    c2: CardModel,
) -> bool {
    &&& c.children.len() != ordered.len() ==> (r matches Err(DomainError::InvalidOperation(m))
        && m@ == reorder_length_text())
    &&& forall|i: int|
        c.children.len() == ordered.len() && #[trigger] first_reorder_fault(c.children, ordered, i)
            ==> if ordered.subrange(0, i).contains(ordered[i]) {
            r matches Err(DomainError::InvalidOperation(m)) && m@ == reorder_duplicate_text(
                ordered[i],
            )
        } else {
            r == Err::<(), DomainError>(DomainError::CardNotFound(ordered[i]))
        }
    &&& r is Ok <==> is_rearrangement(c.children, ordered)
    &&& r is Ok ==> c2 == (CardModel { children: ordered, ..c })
    &&& r is Err ==> c2 == c
}

/// What adding a note page does: a blank title is refused and changes nothing;
/// otherwise a page with the returned identifier, the trimmed title and an empty
/// body is appended.
pub open spec fn note_add_outcome(
    c: CardModel,
    title: Seq<char>,
    r: Result<NotePageId, DomainError>,
    c2: CardModel,
) -> bool {
    match r {
        Ok(id) => !is_blank(title) && c2 == (CardModel {
            notes: c.notes.push(NoteModel { id, title: trimmed(title), body: Seq::empty() }),
            ..c
        }),
        Err(e) => is_blank(title) && e == DomainError::EmptyTitle && c2 == c,
    }
}

/// What renaming note page `id` does: without such a page, a "not found" error;
/// otherwise the first such page gets the trimmed title, unless it is blank.
pub open spec fn note_rename_outcome(
    c: CardModel,
    id: NotePageId,
    title: Seq<char>,
    r: Result<(), DomainError>,
    c2: CardModel,
) -> bool {
    &&& !has_note(c.notes, id) ==> (r matches Err(DomainError::InvalidOperation(m)) && m@
        == note_not_found_text(id))
    &&& forall|i: int|
        #[trigger] first_note_at(c.notes, id, i) ==> if is_blank(title) {
            r == Err::<(), DomainError>(DomainError::EmptyTitle)
        } else {
            r is Ok && c2 == (CardModel {
                notes: c.notes.update(i, NoteModel { title: trimmed(title), ..c.notes[i] }),
                ..c
            })
        }
    &&& r is Err ==> c2 == c
}

/// What saving the body of note page `id` does: without such a page, a "not
/// found" error; otherwise the first such page gets the body.
pub open spec fn note_body_outcome(
    c: CardModel,
    id: NotePageId,
    body: Seq<char>,
    r: Result<(), DomainError>,
    c2: CardModel,
) -> bool {
    &&& !has_note(c.notes, id) ==> (r matches Err(DomainError::InvalidOperation(m)) && m@
        == note_not_found_text(id))
    &&& forall|i: int|
        #[trigger] first_note_at(c.notes, id, i) ==> r is Ok && c2 == (CardModel {
            notes: c.notes.update(i, NoteModel { body, ..c.notes[i] }),
            ..c
        })
    &&& r is Err ==> c2 == c
}

/// What deleting note page `id` does: every such page goes; without one, a
/// "not found" error and nothing changes.
pub open spec fn note_delete_outcome(
    c: CardModel,
    id: NotePageId,
    r: Result<(), DomainError>,
    c2: CardModel,
) -> bool {
    &&& has_note(c.notes, id) ==> r is Ok && c2 == (CardModel {
        notes: notes_without(c.notes, id),
        ..c
    })
    &&& !has_note(c.notes, id) ==> (r matches Err(DomainError::InvalidOperation(m)) && m@
        == note_not_found_text(id)) && c2 == c
}

/// Whether some bucket in `buckets` is named `name`, ASCII case aside.
pub open spec fn name_taken(buckets: Seq<BucketModel>, name: Seq<char>) -> bool {
    exists|i: int|
        0 <= i < buckets.len() && same_ignoring_ascii_case((#[trigger] buckets[i]).name, name)
}

/// Whether some bucket in `buckets` of an identifier other than `id` is named
/// `name`, ASCII case aside.
pub open spec fn name_taken_by_other(buckets: Seq<BucketModel>, id: BucketId, name: Seq<char>) -> bool {
    exists|i: int|
        0 <= i < buckets.len() && (#[trigger] buckets[i]).id != id && same_ignoring_ascii_case(
            buckets[i].name,
            name,
        )
}

/// Whether some bucket in `buckets` has identifier `id`.
pub open spec fn has_bucket(buckets: Seq<BucketModel>, id: BucketId) -> bool {
    exists|i: int| 0 <= i < buckets.len() && (#[trigger] buckets[i]).id == id
}

/// Whether `i` is the position of the first bucket of identifier `id`.
pub open spec fn first_bucket_at(buckets: Seq<BucketModel>, id: BucketId, i: int) -> bool {
    &&& 0 <= i < buckets.len()
    &&& buckets[i].id == id
    &&& forall|j: int| 0 <= j < i ==> (#[trigger] buckets[j]).id != id
}

/// Whether position `i` of a bucket reorder list is at fault: its identifier
/// came earlier in the list, or names no bucket.
pub open spec fn bucket_fault_at(buckets: Seq<BucketModel>, ordered: Seq<BucketId>, i: int) -> bool {
    ordered.subrange(0, i).contains(ordered[i]) || !has_bucket(buckets, ordered[i])
}

/// Whether `i` is the first position at fault in a bucket reorder list.
pub open spec fn first_bucket_fault(buckets: Seq<BucketModel>, ordered: Seq<BucketId>, i: int) -> bool {
    &&& 0 <= i < ordered.len()
    &&& bucket_fault_at(buckets, ordered, i)
    &&& forall|j: int| 0 <= j < i ==> !#[trigger] bucket_fault_at(buckets, ordered, j)
}

/// Whether a bucket reorder list is a rearrangement of `buckets`: as long,
/// without repeats, and naming buckets that exist.
pub open spec fn is_bucket_rearrangement(buckets: Seq<BucketModel>, ordered: Seq<BucketId>) -> bool {
    &&& ordered.len() == buckets.len()
    &&& forall|i: int| 0 <= i < ordered.len() ==> !#[trigger] bucket_fault_at(buckets, ordered, i)
}

/// The buckets in the order of `ordered`: at each position, the first bucket
/// of that identifier.
pub open spec fn buckets_in_order(
    buckets: Seq<BucketModel>,
    ordered: Seq<BucketId>,
    result: Seq<BucketModel>,
) -> bool {
    &&& result.len() == ordered.len()
    &&& forall|i: int, j: int|
        0 <= i < ordered.len() && #[trigger] first_bucket_at(buckets, ordered[i], j) ==> result[i]
            == buckets[j]
}

/// The text of the error for renaming a bucket to the reserved name.
pub open spec fn rename_to_unassigned_text() -> Seq<char> {
    "Cannot rename a bucket to 'Unassigned'."@
}

/// The text of the error for renaming the "Unassigned" bucket.
pub open spec fn unassigned_rename_text() -> Seq<char> {
    "The 'Unassigned' bucket cannot be renamed."@
}

/// The text of the error for removing the "Unassigned" bucket.
pub open spec fn unassigned_remove_text() -> Seq<char> {
    "The 'Unassigned' bucket cannot be removed."@
}

/// The text of the error for a bucket reorder list of the wrong length.
pub open spec fn bucket_reorder_length_text() -> Seq<char> {
    "Reorder list length does not match existing buckets"@
}

/// What adding a bucket named `name` does: a name already on the board (ASCII
/// case aside) is refused and changes nothing; otherwise a bucket with the
/// returned identifier and the name is appended.
pub open spec fn bucket_add_outcome(
    c: CardModel,
    name: Seq<char>,
    r: Result<BucketId, DomainError>,
    c2: CardModel,
) -> bool {
    match r {
        Ok(id) => !name_taken(c.buckets, name) && c2 == (CardModel {
            buckets: c.buckets.push(BucketModel { id, name }),
            ..c
        }),
        Err(e) => name_taken(c.buckets, name) && (e matches DomainError::DuplicateBucketName(n)
            && n@ == name) && c2 == c,
    }
}

/// What renaming bucket `id` to `name` does. In this order: the reserved name
/// is refused; a name another bucket has (ASCII case aside) is refused; without
/// such a bucket, "not found"; the first such bucket, if it is the "Unassigned"
/// one, is refused; otherwise it takes the name.
pub open spec fn bucket_rename_outcome(
    c: CardModel,
    id: BucketId,
    name: Seq<char>,
    r: Result<(), DomainError>,
    c2: CardModel,
) -> bool {
    let reserved = name == unassigned_name();
    let taken = name_taken_by_other(c.buckets, id, name);
    &&& reserved ==> (r matches Err(DomainError::InvalidOperation(m)) && m@
        == rename_to_unassigned_text())
    &&& !reserved && taken ==> (r matches Err(DomainError::DuplicateBucketName(n)) && n@ == name)
    &&& !reserved && !taken && !has_bucket(c.buckets, id) ==> r == Err::<(), DomainError>(
        DomainError::BucketNotFound(id),
    )
    &&& forall|i: int|
        !reserved && !taken && #[trigger] first_bucket_at(c.buckets, id, i) ==> if c.buckets[i].name
            == unassigned_name() {
            r matches Err(DomainError::InvalidOperation(m)) && m@ == unassigned_rename_text()
        } else {
            r is Ok && c2 == (CardModel {
                buckets: c.buckets.update(i, BucketModel { name, ..c.buckets[i] }),
                ..c
            })
        }
    &&& r is Err ==> c2 == c
}

/// What removing bucket `id` does: without such a bucket, "not found"; the
/// first such bucket, if it is the "Unassigned" one, is refused; otherwise it
/// is taken out.
pub open spec fn bucket_remove_outcome(
    c: CardModel,
    id: BucketId,
    r: Result<(), DomainError>,
    c2: CardModel,
) -> bool {
    &&& !has_bucket(c.buckets, id) ==> r == Err::<(), DomainError>(DomainError::BucketNotFound(id))
    &&& forall|i: int|
        #[trigger] first_bucket_at(c.buckets, id, i) ==> if c.buckets[i].name == unassigned_name() {
            r matches Err(DomainError::InvalidOperation(m)) && m@ == unassigned_remove_text()
        } else {
            r is Ok && c2 == (CardModel { buckets: c.buckets.remove(i), ..c })
        }
    &&& r is Err ==> c2 == c
}

/// What reordering a card's buckets by `ordered` does: it succeeds exactly when
/// `ordered` rearranges the buckets, and then takes that order; otherwise the
/// first fault found decides the error and nothing changes.
pub open spec fn bucket_reorder_outcome(
    c: CardModel,
    ordered: Seq<BucketId>,
    r: Result<(), DomainError>,
    c2: CardModel,
) -> bool {
    &&& c.buckets.len() != ordered.len() ==> (r matches Err(DomainError::InvalidOperation(m))
        && m@ == bucket_reorder_length_text())
    &&& forall|i: int|
        c.buckets.len() == ordered.len() && #[trigger] first_bucket_fault(c.buckets, ordered, i)
            ==> if ordered.subrange(0, i).contains(ordered[i]) {
            r == Err::<(), DomainError>(DomainError::DuplicateBucketId(ordered[i]))
        } else {
            r == Err::<(), DomainError>(DomainError::BucketNotFound(ordered[i]))
        }
    &&& r is Ok <==> is_bucket_rearrangement(c.buckets, ordered)
    &&& r is Ok ==> buckets_in_order(c.buckets, ordered, c2.buckets) && c2 == (CardModel {
        buckets: c2.buckets,
        ..c
    })
    &&& r is Err ==> c2 == c
}

/// Whether some bucket in `buckets` is the "Unassigned" one.
pub open spec fn has_unassigned(buckets: Seq<BucketModel>) -> bool {
    exists|k: int| 0 <= k < buckets.len() && (#[trigger] buckets[k]).name == unassigned_name()
}

/// A board with a bucket of identifier `id` has a first such bucket.
proof fn lemma_first_bucket_exists(buckets: Seq<BucketModel>, id: BucketId) -> (i: int)
    requires
        has_bucket(buckets, id),
    ensures
        first_bucket_at(buckets, id, i),
    decreases buckets.len(),
{
    if buckets[0].id == id {
        0
    } else {
        let rest = buckets.drop_first();
        let m = choose|m: int| 0 <= m < buckets.len() && (#[trigger] buckets[m]).id == id;
        assert(rest[m - 1].id == id);
        let j = lemma_first_bucket_exists(rest, id);
        assert forall|n: int| 0 <= n < j + 1 implies (#[trigger] buckets[n]).id != id by {
            if n > 0 {
                assert(buckets[n] == rest[n - 1]);
            }
        }
        j + 1
    }
}

/// A rearrangement names every bucket: the buckets' identifiers are distinct,
/// and each bucket is the first of its identifier and is named in the list.
proof fn lemma_rearrangement_names_every_bucket(
    buckets: Seq<BucketModel>,
    ordered: Seq<BucketId>,
    k: int,
)
    requires
        is_bucket_rearrangement(buckets, ordered),
        0 <= k < buckets.len(),
    ensures
        first_bucket_at(buckets, buckets[k].id, k),
        ordered.contains(buckets[k].id),
{
    broadcast use vstd::seq_lib::seq_to_set_is_finite;

    let ids = buckets.map_values(|b: BucketModel| b.id);
    assert forall|i: int, j: int| 0 <= i < ordered.len() && 0 <= j < ordered.len() && i != j implies ordered[i]
        != ordered[j] by {
        if i < j {
            assert(!bucket_fault_at(buckets, ordered, j));
            assert(ordered.subrange(0, j)[i] == ordered[i]);
        } else {
            assert(!bucket_fault_at(buckets, ordered, i));
            assert(ordered.subrange(0, i)[j] == ordered[j]);
        }
    }
    assert(ordered.no_duplicates());
    ordered.unique_seq_to_set();
    assert forall|x: BucketId| ordered.to_set().contains(x) implies ids.to_set().contains(x) by {
        let i = choose|i: int| 0 <= i < ordered.len() && ordered[i] == x;
        assert(!bucket_fault_at(buckets, ordered, i));
        let m = choose|m: int| 0 <= m < buckets.len() && (#[trigger] buckets[m]).id == x;
        assert(ids[m] == x);
    }
    vstd::set_lib::lemma_len_subset(ordered.to_set(), ids.to_set());
    ids.lemma_cardinality_of_set();
    ids.lemma_no_dup_set_cardinality();
    vstd::set_lib::lemma_subset_equality(ordered.to_set(), ids.to_set());
    assert(ids[k] == buckets[k].id);
    assert(ids.to_set().contains(buckets[k].id));
    assert(ordered.to_set().contains(buckets[k].id));
    assert forall|j: int| 0 <= j < k implies (#[trigger] buckets[j]).id != buckets[k].id by {
        assert(ids[j] == buckets[j].id);
    }
}

/// The "Unassigned" bucket is never lost: on a board that has it, adding,
/// renaming, removing and reordering buckets each leave a bucket of that name.
pub proof fn lemma_bucket_changes_keep_unassigned(
    c: CardModel,
    name: Seq<char>,
    id: BucketId,
    ordered: Seq<BucketId>,
    added: Result<BucketId, DomainError>,
    after_add: CardModel,
    renamed: Result<(), DomainError>,
    after_rename: CardModel,
    removed: Result<(), DomainError>,
    after_remove: CardModel,
    reordered: Result<(), DomainError>,
    after_reorder: CardModel,
)
    requires
        has_unassigned(c.buckets),
        bucket_add_outcome(c, name, added, after_add),
        bucket_rename_outcome(c, id, name, renamed, after_rename),
        bucket_remove_outcome(c, id, removed, after_remove),
        bucket_reorder_outcome(c, ordered, reordered, after_reorder),
    ensures
        has_unassigned(after_add.buckets),
        has_unassigned(after_rename.buckets),
        has_unassigned(after_remove.buckets),
        has_unassigned(after_reorder.buckets),
{
    let k = choose|k: int| 0 <= k < c.buckets.len() && (#[trigger] c.buckets[k]).name
        == unassigned_name();
    if added is Ok {
        assert(after_add.buckets[k] == c.buckets[k]);
    }
    if renamed is Ok {
        let i = lemma_first_bucket_exists(c.buckets, id);
        assert(i != k);
        assert(after_rename.buckets[k] == c.buckets[k]);
    }
    if removed is Ok {
        let i = lemma_first_bucket_exists(c.buckets, id);
        assert(i != k);
        if k < i {
            assert(after_remove.buckets[k] == c.buckets[k]);
        } else {
            assert(after_remove.buckets[k - 1] == c.buckets[k]);
        }
    }
    if reordered is Ok {
        lemma_rearrangement_names_every_bucket(c.buckets, ordered, k);
        let i = choose|i: int| 0 <= i < ordered.len() && ordered[i] == c.buckets[k].id;
        assert(first_bucket_at(c.buckets, ordered[i], k));
        assert(after_reorder.buckets[i] == c.buckets[k]);
    }
}

/// Taking the pages of one identifier out shortens the list exactly when there
/// was such a page; otherwise the list is unchanged.
pub proof fn lemma_notes_without_len(notes: Seq<NoteModel>, id: NotePageId)
    ensures
        notes_without(notes, id).len() <= notes.len(),
        notes_without(notes, id).len() == notes.len() <==> !has_note(notes, id),
        !has_note(notes, id) ==> notes_without(notes, id) == notes,
    decreases notes.len(),
{
    if notes.len() > 0 {
        let init = notes.drop_last();
        lemma_notes_without_len(init, id);
        if has_note(init, id) {
            let j = choose|j: int| 0 <= j < init.len() && (#[trigger] init[j]).id == id;
            assert(notes[j].id == id);
        }
        if has_note(notes, id) && notes.last().id != id {
            let j = choose|j: int| 0 <= j < notes.len() && (#[trigger] notes[j]).id == id;
            assert(init[j].id == id);
        }
        if notes.last().id == id {
            assert(notes[notes.len() - 1].id == id);
        }
        if !has_note(notes, id) {
            assert forall|j: int| 0 <= j < init.len() implies (#[trigger] init[j]).id != id by {
                assert(notes[j].id != id);
            }
            assert(init.push(notes.last()) =~= notes);
        }
    }
}

/// A planner card: a task, a project, a team, or the workspace itself.
#[derive(Debug, Clone, PartialEq, Eq)]
pub struct Card {
    id: CardId,
    title: String,
    description: Option<String>,
    parent_id: Option<CardId>,
    children_ids: Vec<CardId>,
    notes: Vec<NotePage>,
    due_date: Option<DueDate>,
    bucket_id: Option<BucketId>,
    buckets: Vec<Bucket>,
}

/// The views of a list of buckets.
pub open spec fn bucket_models(buckets: Seq<Bucket>) -> Seq<BucketModel> {
    buckets.map_values(|b: Bucket| b@)
}

impl View for Card {
    type V = CardModel;

    closed spec fn view(&self) -> CardModel {
        CardModel {
            id: self.id,
            title: self.title@,
            description: opt_text(self.description),
            parent_id: self.parent_id,
            children: self.children_ids@,
            notes: note_models(self.notes@),
            due_date: opt_date(self.due_date),
            bucket_id: self.bucket_id,
            buckets: bucket_models(self.buckets@),
        }
    }
}


impl Card {
    /// Creates a card with the given identifier, title, description and parent.
    /// The title must not be blank; it is kept as given.
    pub fn new_with_id(
        id: CardId,
        title: String,
        description: Option<String>,
        parent_id: Option<CardId>,
    ) -> (r: Result<Card, DomainError>)
        ensures
            match r {
                Ok(c) => !is_blank(title@) && c@ == CardModel {
                    id,
                    title: title@,
                    description: opt_text(description),
                    parent_id,
                    children: Seq::empty(),
                    notes: Seq::empty(),
                    due_date: None,
                    bucket_id: None,
                    buckets: Seq::empty(),
                },
                Err(e) => is_blank(title@) && e == DomainError::EmptyTitle,
            },
    {
        if is_blank_str(title.as_str()) {
            return Err(DomainError::EmptyTitle);
        }
        let c = Card {
            id,
            title,
            description,
            parent_id,
            children_ids: Vec::new(),
            notes: Vec::new(),
            due_date: None,
            bucket_id: None,
            buckets: Vec::new(),
        };
        assert(note_models(c.notes@) =~= Seq::<NoteModel>::empty());
        assert(bucket_models(c.buckets@) =~= Seq::<BucketModel>::empty());
        Ok(c)
    }

    /// Creates a card with a freshly generated identifier.
    pub fn new(title: String, description: Option<String>, parent_id: Option<CardId>) -> (r:
        Result<Card, DomainError>)
        ensures
            match r {
                Ok(c) => !is_blank(title@) && c@.title == title@ && c@.description == opt_text(
                    description,
                ) && c@.parent_id == parent_id && c@.children.len() == 0 && c@.notes.len() == 0
                    && c@.due_date is None && c@.bucket_id is None && c@.buckets.len() == 0,
                Err(e) => is_blank(title@) && e == DomainError::EmptyTitle,
            },
    {
        Card::new_with_id(CardId::new(), title, description, parent_id)
    }

    /// Creates a top-level card (no parent, no bucket of its own) with a fresh
    /// identifier; its board starts with the "Unassigned" bucket.
    pub fn new_root(title: String) -> (r: Result<Card, DomainError>)
        ensures
            match r {
                Ok(c) => !is_blank(title@) && c@.title == title@ && c@.description is None
                    && c@.parent_id is None && c@.children.len() == 0 && c@.notes.len() == 0
                    && c@.due_date is None && c@.bucket_id is None && c@.buckets.len() == 1
                    && c@.buckets[0].name == unassigned_name(),
                Err(e) => is_blank(title@) && e == DomainError::EmptyTitle,
            },
    {
        let mut c = Card::new(title, None, None)?;
        c.buckets.push(Bucket::new(String::from_str("Unassigned")));
        proof {
            reveal_strlit("Unassigned");
            assert(bucket_models(c.buckets@) =~= seq![c.buckets@[0]@]);
        }
        Ok(c)
    }

    /// Creates a card under `parent_id`, in the parent's bucket `bucket_id`,
    /// with a fresh identifier; its own board starts with the "Unassigned"
    /// bucket. The parent's list of children is not touched: the registry does
    /// that.
    pub fn new_child(title: String, parent_id: CardId, bucket_id: BucketId) -> (r: Result<
        Card,
        DomainError,
    >)
        ensures
            match r {
                Ok(c) => !is_blank(title@) && c@.title == title@ && c@.description is None
                    && c@.parent_id == Some(parent_id) && c@.children.len() == 0 && c@.notes.len()
                    == 0 && c@.due_date is None && c@.bucket_id == Some(bucket_id)
                    && c@.buckets.len() == 1 && c@.buckets[0].name == unassigned_name(),
                Err(e) => is_blank(title@) && e == DomainError::EmptyTitle,
            },
    {
        let mut c = Card::new(title, None, Some(parent_id))?;
        c.bucket_id = Some(bucket_id);
        c.buckets.push(Bucket::new(String::from_str("Unassigned")));
        proof {
            reveal_strlit("Unassigned");
            assert(bucket_models(c.buckets@) =~= seq![c.buckets@[0]@]);
        }
        Ok(c)
    }

    /// Rebuilds a card from stored parts, as they are; nothing is checked.
    pub fn from_parts(
        id: CardId,
        title: String,
        description: Option<String>,
        parent_id: Option<CardId>,
        children_ids: Vec<CardId>,
        notes: Vec<NotePage>,
        due_date: Option<DueDate>,
        bucket_id: Option<BucketId>,
        buckets: Vec<Bucket>,
    ) -> (r: Card)
        ensures
            r@ == (CardModel {
                id,
                title: title@,
                description: opt_text(description),
                parent_id,
                children: children_ids@,
                notes: note_models(notes@),
                due_date: opt_date(due_date),
                bucket_id,
                buckets: bucket_models(buckets@),
            }),
    {
        Card { id, title, description, parent_id, children_ids, notes, due_date, bucket_id, buckets }
    }

    /// The card's identifier.
    pub fn id(&self) -> (r: CardId)
        ensures
            r == self@.id,
    {
        self.id
    }

    /// The card's title.
    pub fn title(&self) -> (r: &str)
        ensures
            r@ == self@.title,
    {
        self.title.as_str()
    }

    /// The card's description, if any.
    pub fn description(&self) -> (r: Option<&str>)
        ensures
            match r {
                Some(d) => self@.description == Some(d@),
                None => self@.description is None,
            },
    {
        match &self.description {
            Some(d) => Some(d.as_str()),
            None => None,
        }
    }

    /// The parent's identifier, or `None` for a top-level card.
    pub fn parent_id(&self) -> (r: Option<CardId>)
        ensures
            r == self@.parent_id,
    {
        self.parent_id
    }

    /// The ordered identifiers of the card's children.
    pub fn children_ids(&self) -> (r: &[CardId])
        ensures
            r@ == self@.children,
    {
        self.children_ids.as_slice()
    }

    /// The card's note pages, in order.
    pub fn notes(&self) -> (r: &[NotePage])
        ensures
            note_models(r@) == self@.notes,
    {
        self.notes.as_slice()
    }

    /// The card's due date, if any.
    pub fn due_date(&self) -> (r: Option<&DueDate>)
        ensures
            match r {
                Some(d) => self@.due_date == Some(d@),
                None => self@.due_date is None,
            },
    {
        match &self.due_date {
            Some(d) => Some(d),
            None => None,
        }
    }

    /// Replaces the title, unless the new one is blank.
    pub fn rename(&mut self, new_title: String) -> (r: Result<(), DomainError>)
        ensures
            rename_outcome(old(self)@, new_title@, r, final(self)@),
    {
        if is_blank_str(new_title.as_str()) {
            return Err(DomainError::EmptyTitle);
        }
        self.title = new_title;
        Ok(())
    }

    /// Replaces the description.
    pub fn set_description(&mut self, description: Option<String>) -> (r: Result<(), DomainError>)
        ensures
            r is Ok,
            final(self)@ == (CardModel { description: opt_text(description), ..old(self)@ }),
    {
        self.description = description;
        Ok(())
    }

    /// Replaces the due date.
    pub fn set_due_date(&mut self, due_date: Option<DueDate>)
        ensures
            final(self)@ == (CardModel { due_date: opt_date(due_date), ..old(self)@ }),
    {
        self.due_date = due_date;
    }

    /// Appends a child identifier to the ordered children.
    pub fn add_child(&mut self, child_id: CardId)
        ensures
            final(self)@ == (CardModel { children: old(self)@.children.push(child_id), ..old(self)@ }),
    {
        self.children_ids.push(child_id);
    }

    /// Takes every occurrence of a child identifier out of the children.
    pub fn remove_child(&mut self, child_id: CardId)
        ensures
            final(self)@ == (CardModel {
                children: remove_all(old(self)@.children, child_id),
                ..old(self)@
            }),
    {
        let v = crate::ordering::remove_value(self.children_ids.as_slice(), child_id);
        self.children_ids = v;
    }

    /// Sets the parent reference.
    pub fn set_parent(&mut self, parent_id: Option<CardId>)
        ensures
            final(self)@ == (CardModel { parent_id, ..old(self)@ }),
    {
        self.parent_id = parent_id;
    }

    /// Replaces the order of the children by `ordered_ids`, which must hold every
    /// current child exactly once.
    pub fn reorder_children(&mut self, ordered_ids: Vec<CardId>) -> (r: Result<(), DomainError>)
        ensures
            reorder_outcome(old(self)@, ordered_ids@, r, final(self)@),
    {
        if ordered_ids.len() != self.children_ids.len() {
            return Err(
                DomainError::InvalidOperation(
                    String::from_str("Reorder list length does not match existing children"),
                ),
            );
        }
        let mut i: usize = 0;
        while i < ordered_ids.len()
            invariant
                i <= ordered_ids@.len(),
                ordered_ids@.len() == self.children_ids@.len(),
                self@ == old(self)@,
                forall|j: int|
                    0 <= j < i ==> !#[trigger] reorder_fault_at(
                        self@.children,
                        ordered_ids@,
                        j,
                    ),
            decreases ordered_ids@.len() - i,
        {
            let id = ordered_ids[i];
            let seen = crate::ordering::prefix_contains_value(ordered_ids.as_slice(), i, id);
            if seen {
                proof {
                    assert(first_reorder_fault(self@.children, ordered_ids@, i as int));
                }
                let mut m = String::from_str("Duplicate child ID in reorder list: ");
                let t = id.to_text();
                m.append(t.as_str());
                return Err(DomainError::InvalidOperation(m));
            }
            if !crate::ordering::contains_value(self.children_ids.as_slice(), id) {
                proof {
                    assert(first_reorder_fault(self@.children, ordered_ids@, i as int));
                }
                return Err(DomainError::CardNotFound(id));
            }
            i = i + 1;
        }
        self.children_ids = ordered_ids;
        Ok(())
    }

    /// The position of the first note page of identifier `id`, if any.
    fn find_note(&self, id: NotePageId) -> (r: Option<usize>)
        ensures
            match r {
                Some(i) => first_note_at(self@.notes, id, i as int),
                None => !has_note(self@.notes, id),
            },
    {
        let mut i: usize = 0;
        while i < self.notes.len()
            invariant
                i <= self.notes@.len(),
                self@.notes == note_models(self.notes@),
                forall|j: int| 0 <= j < i ==> (#[trigger] self@.notes[j]).id != id,
            decreases self.notes@.len() - i,
        {
            assert(self@.notes[i as int] == self.notes@[i as int]@);
            if self.notes[i].id() == id {
                return Some(i);
            }
            i = i + 1;
        }
        None
    }

    /// Adds a note page with a trimmed, non-blank title and an empty body at the
    /// end of the card's pages, and returns its fresh identifier.
    pub fn add_note_page(&mut self, title: String) -> (r: Result<NotePageId, DomainError>)
        ensures
            note_add_outcome(old(self)@, title@, r, final(self)@),
    {
        let note = NotePage::new(title)?;
        let id = note.id();
        let ghost before = self.notes@;
        self.notes.push(note);
        assert(note_models(self.notes@) =~= note_models(before).push(note@));
        Ok(id)
    }

    /// Renames the first note page of identifier `id`, with the title trimmed;
    /// a blank title is refused and leaves the page as it was.
    pub fn rename_note_page(&mut self, id: NotePageId, title: String) -> (r: Result<(), DomainError>)
        ensures
            note_rename_outcome(old(self)@, id, title@, r, final(self)@),
    {
        match self.find_note(id) {
            None => {
                let mut m = String::from_str("Note page not found: ");
                let t = id.to_text();
                m.append(t.as_str());
                Err(DomainError::InvalidOperation(m))
            },
            Some(i) => {
                let ghost before = self.notes@;
                let mut note = self.notes.remove(i);
                let r = note.rename(title);
                self.notes.insert(i, note);
                proof {
                    assert(self.notes@ =~= before.update(i as int, note));
                    assert(note_models(self.notes@) =~= note_models(before).update(i as int, note@));
                    if r is Err {
                        assert(note_models(self.notes@) =~= note_models(before));
                    }
                    assert forall|j: int| #[trigger] first_note_at(old(self)@.notes, id, j) implies j == i by {
                        if j < i {
                            assert(old(self)@.notes[j].id != id);
                        } else if j > i {
                            assert(old(self)@.notes[i as int].id != id);
                        }
                    }
                }
                r
            },
        }
    }

    /// Replaces the body of the first note page of identifier `id`.
    pub fn save_note_page_body(&mut self, id: NotePageId, body: String) -> (r: Result<(), DomainError>)
        ensures
            note_body_outcome(old(self)@, id, body@, r, final(self)@),
    {
        match self.find_note(id) {
            None => {
                let mut m = String::from_str("Note page not found: ");
                let t = id.to_text();
                m.append(t.as_str());
                Err(DomainError::InvalidOperation(m))
            },
            Some(i) => {
                let ghost before = self.notes@;
                let mut note = self.notes.remove(i);
                note.set_body(body);
                self.notes.insert(i, note);
                proof {
                    assert(self.notes@ =~= before.update(i as int, note));
                    assert(note_models(self.notes@) =~= note_models(before).update(i as int, note@));
                    assert forall|j: int| #[trigger] first_note_at(old(self)@.notes, id, j) implies j == i by {
                        if j < i {
                            assert(old(self)@.notes[j].id != id);
                        } else if j > i {
                            assert(old(self)@.notes[i as int].id != id);
                        }
                    }
                }
                Ok(())
            },
        }
    }

    /// Deletes every note page of identifier `id`; refused when there is none.
    pub fn delete_note_page(&mut self, id: NotePageId) -> (r: Result<(), DomainError>)
        ensures
            note_delete_outcome(old(self)@, id, r, final(self)@),
    {
        let original_len = self.notes.len();
        let mut pages: Vec<NotePage> = Vec::new();
        core::mem::swap(&mut pages, &mut self.notes);
        let ghost all = note_models(pages@);
        let ghost ps = pages@;
        let mut kept: Vec<NotePage> = Vec::new();
        proof {
            vstd::std_specs::vec::axiom_spec_into_iter(pages);
            assert(note_models(kept@) =~= notes_without(all.take(0), id));
        }
        for note in it: pages
            invariant
                it.seq() == ps,
                all == note_models(ps),
                note_models(kept@) == notes_without(all.take(it.index()), id),
        {
            let ghost before = kept@;
            assert(all.take(it.index() + 1).drop_last() =~= all.take(it.index()));
            assert(all[it.index()] == note@);
            if note.id() != id {
                kept.push(note);
                assert(note_models(kept@) =~= note_models(before).push(note@));
            }
        }
        proof {
            assert(all.take(all.len() as int) =~= all);
            lemma_notes_without_len(all, id);
        }
        let removed = kept.len() != original_len;
        self.notes = kept;
        if !removed {
            let mut m = String::from_str("Note page not found: ");
            let t = id.to_text();
            m.append(t.as_str());
            return Err(DomainError::InvalidOperation(m));
        }
        Ok(())
    }

    /// The bucket of the parent's board this card sits in, if any.
    pub fn bucket_id(&self) -> (r: Option<BucketId>)
        ensures
            r == self@.bucket_id,
    {
        self.bucket_id
    }

    /// The buckets of the card's own board, in order.
    pub fn buckets(&self) -> (r: &[Bucket])
        ensures
            bucket_models(r@) == self@.buckets,
    {
        self.buckets.as_slice()
    }

    /// Puts this card in bucket `bucket_id` of its parent's board. Whether the
    /// parent has such a bucket is for the caller to check.
    pub fn assign_to_bucket(&mut self, bucket_id: BucketId)
        ensures
            final(self)@ == (CardModel { bucket_id: Some(bucket_id), ..old(self)@ }),
    {
        self.bucket_id = Some(bucket_id);
    }

    /// Sets the bucket reference as given, `None` included.
    pub fn set_bucket(&mut self, bucket_id: Option<BucketId>)
        ensures
            final(self)@ == (CardModel { bucket_id, ..old(self)@ }),
    {
        self.bucket_id = bucket_id;
    }

    /// The position of the first bucket of identifier `id`, if any.
    fn find_bucket(&self, id: BucketId) -> (r: Option<usize>)
        ensures
            match r {
                Some(i) => first_bucket_at(self@.buckets, id, i as int),
                None => !has_bucket(self@.buckets, id),
            },
    {
        let mut i: usize = 0;
        while i < self.buckets.len()
            invariant
                i <= self.buckets@.len(),
                self@.buckets == bucket_models(self.buckets@),
                forall|j: int| 0 <= j < i ==> (#[trigger] self@.buckets[j]).id != id,
            decreases self.buckets@.len() - i,
        {
            assert(self@.buckets[i as int] == self.buckets@[i as int]@);
            if self.buckets[i].id().0 == id.0 {
                return Some(i);
            }
            i = i + 1;
        }
        None
    }

    /// Whether some bucket, other than those of identifier `except` when one is
    /// given, is named `name`, ASCII case aside.
    fn name_in_use(&self, name: &str, except: Option<BucketId>) -> (b: bool)
        ensures
            b == match except {
                Some(id) => name_taken_by_other(self@.buckets, id, name@),
                None => name_taken(self@.buckets, name@),
            },
    {
        let mut i: usize = 0;
        while i < self.buckets.len()
            invariant
                i <= self.buckets@.len(),
                self@.buckets == bucket_models(self.buckets@),
                forall|j: int|
                    0 <= j < i ==> !(match except {
                        Some(id) => (#[trigger] self@.buckets[j]).id != id,
                        None => true,
                    } && same_ignoring_ascii_case(self@.buckets[j].name, name@)),
            decreases self.buckets@.len() - i,
        {
            let b = &self.buckets[i];
            assert(self@.buckets[i as int] == b@);
            let other = match except {
                Some(id) => b.id().0 != id.0,
                None => true,
            };
            if other && eq_ignoring_ascii_case(b.name(), name) {
                return true;
            }
            i = i + 1;
        }
        proof {
            match except {
                Some(id) => {
                    assert forall|j: int|
                        0 <= j < self@.buckets.len() && (#[trigger] self@.buckets[j]).id
                            != id implies !same_ignoring_ascii_case(
                        self@.buckets[j].name,
                        name@,
                    ) by {}
                },
                None => {
                    assert forall|j: int| 0 <= j < self@.buckets.len() implies !same_ignoring_ascii_case(
                        (#[trigger] self@.buckets[j]).name,
                        name@,
                    ) by {}
                },
            }
        }
        false
    }

    /// Adds a bucket named `name` at the end of the card's board and returns its
    /// fresh identifier; a name already on the board, ASCII case aside, is
    /// refused.
    pub fn add_bucket(&mut self, name: String) -> (r: Result<BucketId, DomainError>)
        ensures
            bucket_add_outcome(old(self)@, name@, r, final(self)@),
    {
        if self.name_in_use(name.as_str(), None) {
            return Err(DomainError::DuplicateBucketName(name));
        }
        let bucket = Bucket::new(name);
        let id = bucket.id();
        let ghost before = self.buckets@;
        self.buckets.push(bucket);
        assert(bucket_models(self.buckets@) =~= bucket_models(before).push(bucket@));
        Ok(id)
    }

    /// Renames bucket `id`. The reserved name "Unassigned", a name another bucket
    /// has (ASCII case aside), an unknown bucket and the "Unassigned" bucket
    /// itself are refused, in that order.
    pub fn rename_bucket(&mut self, id: BucketId, new_name: String) -> (r: Result<(), DomainError>)
        ensures
            bucket_rename_outcome(old(self)@, id, new_name@, r, final(self)@),
    {
        proof {
            reveal_strlit("Unassigned");
        }
        if crate::text::texts_equal(new_name.as_str(), UNASSIGNED_BUCKET_NAME) {
            return Err(
                DomainError::InvalidOperation(
                    String::from_str("Cannot rename a bucket to 'Unassigned'."),
                ),
            );
        }
        if self.name_in_use(new_name.as_str(), Some(id)) {
            return Err(DomainError::DuplicateBucketName(new_name));
        }
        match self.find_bucket(id) {
            None => Err(DomainError::BucketNotFound(id)),
            Some(i) => {
                if crate::text::texts_equal(self.buckets[i].name(), UNASSIGNED_BUCKET_NAME) {
                    assert(self@.buckets[i as int] == self.buckets@[i as int]@);
                    return Err(
                        DomainError::InvalidOperation(
                            String::from_str("The 'Unassigned' bucket cannot be renamed."),
                        ),
                    );
                }
                let ghost before = self.buckets@;
                let renamed = Bucket::new_with_id(self.buckets[i].id(), new_name);
                self.buckets.set(i, renamed);
                proof {
                    assert(bucket_models(self.buckets@) =~= bucket_models(before).update(
                        i as int,
                        renamed@,
                    ));
                    assert forall|j: int| #[trigger] first_bucket_at(old(self)@.buckets, id, j) implies j
                        == i by {
                        if j < i {
                            assert(old(self)@.buckets[j].id != id);
                        } else if j > i {
                            assert(old(self)@.buckets[i as int].id != id);
                        }
                    }
                }
                Ok(())
            },
        }
    }

    /// Removes bucket `id` from the card's board; an unknown bucket and the
    /// "Unassigned" bucket are refused.
    pub fn remove_bucket(&mut self, bucket_id: BucketId) -> (r: Result<(), DomainError>)
        ensures
            bucket_remove_outcome(old(self)@, bucket_id, r, final(self)@),
    {
        proof {
            reveal_strlit("Unassigned");
        }
        match self.find_bucket(bucket_id) {
            None => Err(DomainError::BucketNotFound(bucket_id)),
            Some(i) => {
                assert(self@.buckets[i as int] == self.buckets@[i as int]@);
                if crate::text::texts_equal(self.buckets[i].name(), UNASSIGNED_BUCKET_NAME) {
                    return Err(
                        DomainError::InvalidOperation(
                            String::from_str("The 'Unassigned' bucket cannot be removed."),
                        ),
                    );
                }
                let ghost before = self.buckets@;
                self.buckets.remove(i);
                proof {
                    assert(bucket_models(self.buckets@) =~= bucket_models(before).remove(i as int));
                    assert forall|j: int| #[trigger] first_bucket_at(old(self)@.buckets, bucket_id, j) implies j
                        == i by {
                        if j < i {
                            assert(old(self)@.buckets[j].id != bucket_id);
                        } else if j > i {
                            assert(old(self)@.buckets[i as int].id != bucket_id);
                        }
                    }
                }
                Ok(())
            },
        }
    }

    /// Replaces the order of the buckets by `ordered_ids`, which must name every
    /// bucket exactly once.
    pub fn reorder_buckets(&mut self, ordered_ids: Vec<BucketId>) -> (r: Result<(), DomainError>)
        ensures
            bucket_reorder_outcome(old(self)@, ordered_ids@, r, final(self)@),
    {
        if ordered_ids.len() != self.buckets.len() {
            return Err(
                DomainError::InvalidOperation(
                    String::from_str("Reorder list length does not match existing buckets"),
                ),
            );
        }
        let mut reordered: Vec<Bucket> = Vec::new();
        let mut i: usize = 0;
        while i < ordered_ids.len()
            invariant
                i <= ordered_ids@.len(),
                ordered_ids@.len() == self.buckets@.len(),
                self@ == old(self)@,
                reordered@.len() == i,
                forall|j: int|
                    0 <= j < i ==> !#[trigger] bucket_fault_at(self@.buckets, ordered_ids@, j),
                forall|j: int, k: int|
                    0 <= j < i && #[trigger] first_bucket_at(self@.buckets, ordered_ids@[j], k)
                        ==> reordered@[j]@ == self@.buckets[k],
            decreases ordered_ids@.len() - i,
        {
            let id = ordered_ids[i];
            if crate::ordering::prefix_contains_value(ordered_ids.as_slice(), i, id) {
                proof {
                    assert(first_bucket_fault(self@.buckets, ordered_ids@, i as int));
                }
                return Err(DomainError::DuplicateBucketId(id));
            }
            match self.find_bucket(id) {
                None => {
                    proof {
                        assert(first_bucket_fault(self@.buckets, ordered_ids@, i as int));
                    }
                    return Err(DomainError::BucketNotFound(id));
                },
                Some(k) => {
                    assert(self@.buckets[k as int] == self.buckets@[k as int]@);
                    let b = self.buckets[k].duplicate();
                    reordered.push(b);
                    proof {
                        assert forall|j: int, k2: int|
                            0 <= j < i + 1 && #[trigger] first_bucket_at(
                                self@.buckets,
                                ordered_ids@[j],
                                k2,
                            ) implies reordered@[j]@ == self@.buckets[k2] by {
                            if j == i {
                                if k2 < k {
                                    assert(self@.buckets[k2].id != id);
                                } else if k2 > k {
                                    assert(self@.buckets[k as int].id != id);
                                }
                            }
                        }
                    }
                },
            }
            i = i + 1;
        }
        let ghost before = self@;
        self.buckets = reordered;
        proof {
            assert(bucket_models(self.buckets@).len() == ordered_ids@.len());
            assert forall|j: int, k: int|
                0 <= j < ordered_ids@.len() && #[trigger] first_bucket_at(
                    before.buckets,
                    ordered_ids@[j],
                    k,
                ) implies bucket_models(self.buckets@)[j] == before.buckets[k] by {}
        }
        Ok(())
    }
}

} // verus!
