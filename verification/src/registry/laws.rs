//! What every operation keeps: a well-formed registry stays well formed.

use crate::card::{
    has_note, note_add_outcome, note_body_outcome, note_delete_outcome, note_rename_outcome,
    notes_without, rename_outcome, reorder_outcome, is_rearrangement, reorder_fault_at, CardModel,
};
use crate::ids::{CardId, NotePageId};
use crate::note::NoteModel;
use crate::registry::initial_registry;
use crate::registry::model::{
    acyclic, card_ok, children_ok, is_root, key, notes_ok, parent_ok, ranked_by, single_root,
    the_root, well_formed,
};
use crate::registry::mutations::{
    adds_note, creation, deletes_note, drops_child, edits_one, new_card, renames_card, renames_note,
    reorders_children, saves_note_body, sets_description, sets_due_date, updates_details,
    with_new_child, workspace_creation,
};
use crate::registry::moves::{
    adopted, delete_outcome, lemma_leaf_delete_is_pruned, lemma_parent_not_below, lifted, pruned, released, reattached,
    reparent_decidable, reparent_outcome, walk_missing_at, walk_stops,
};
use crate::registry::DeleteStrategy;
use crate::ordering::lemma_remove_all;
use crate::registry::model::{
    anc, is_descendant_or_self, lemma_anc_none, lemma_anc_parent, lemma_anc_step, lemma_walk_ends,
};
use crate::ordering::{moved, remove_all};
use crate::text::{is_blank, lemma_trimmed_not_blank, trimmed};
use vstd::prelude::*;

verus! {

/// A registry that holds only its workspace card is well formed.
pub proof fn lemma_initial_registry_well_formed(id: CardId)
    ensures
        well_formed(initial_registry(id)),
{
    let m = initial_registry(id);
    reveal_strlit("My Workspace");
    assert(m.dom() =~= set![key(id)]);
    assert(!is_blank("My Workspace"@)) by {
        assert(!crate::text::is_white_space('M'));
        assert("My Workspace"@[0] == 'M');
        crate::text::lemma_not_blank_at("My Workspace"@, 0);
    }
    let r = |k: u128| 0nat;
    assert(ranked_by(m, r));
    assert(is_root(m, key(id)));
    assert forall|k2: u128| #[trigger] is_root(m, k2) implies k2 == key(id) by {}
    assert(card_ok(m, key(id)));
}

/// Replacing a card by one with the same identifier, parent and children, a
/// title that is not blank and sound note pages keeps a registry well formed.
pub proof fn lemma_content_edit_keeps_well_formed(m: Map<u128, CardModel>, k: u128, c2: CardModel)
    requires
        well_formed(m),
        m.contains_key(k),
        c2.id == m[k].id,
        c2.parent_id == m[k].parent_id,
        c2.children == m[k].children,
        !is_blank(c2.title),
        notes_ok(c2.notes),
    ensures
        well_formed(m.insert(k, c2)),
{
    let m2 = m.insert(k, c2);
    assert(m2.dom() =~= m.dom());
    assert forall|x: u128| m2.contains_key(x) implies #[trigger] card_ok(m2, x) by {
        assert(card_ok(m, x));
        let ch = m2[x].children;
        assert(ch == m[x].children);
        assert forall|i: int| 0 <= i < ch.len() implies #[trigger] ch[i] != CardId(x)
            && m2.contains_key(key(ch[i])) && m2[key(ch[i])].parent_id == Some(CardId(x)) by {
            assert(m[key(ch[i])].parent_id == Some(CardId(x)));
        }
        match m[x].parent_id {
            Some(p) => {
                assert(m2[key(p)].children == m[key(p)].children);
            },
            None => {},
        }
    }
    let r = choose|r: spec_fn(u128) -> nat| ranked_by(m, r);
    assert(ranked_by(m2, r));
    let w = choose|w: u128| is_root(m, w) && forall|k2: u128| #[trigger] is_root(m, k2) ==> k2 == w;
    assert(is_root(m2, w));
    assert forall|k2: u128| #[trigger] is_root(m2, k2) implies k2 == w by {
        assert(is_root(m, k2));
    }
}

/// Creating a card under a stored parent, with an identifier that no stored
/// card has, keeps a registry well formed.
pub proof fn lemma_creation_keeps_well_formed(
    m: Map<u128, CardModel>,
    p: CardId,
    title: Seq<char>,
    description: Option<Seq<char>>,
    r: Result<CardId, crate::error::DomainError>,
    m2: Map<u128, CardModel>,
)
    requires
        well_formed(m),
        creation(m, p, title, description, r, m2),
        r matches Ok(id) ==> !m.contains_key(key(id)),
    ensures
        well_formed(m2),
{
    if let Ok(id) = r {
        let c = new_card(id, title, description, Some(p));
        let kp = key(p);
        let kc = key(id);
        assert(m2 == with_new_child(m, p, c));
        assert(kp != kc);
        assert(m2.dom() =~= m.dom().insert(kc));
        assert(CardId(kc) == id);
        assert(CardId(kp) == p);
        assert forall|x: u128| m2.contains_key(x) implies #[trigger] card_ok(m2, x) by {
            if x == kc {
                assert(m2[kp].children.contains(id)) by {
                    assert(m2[kp].children[m2[kp].children.len() - 1] == id);
                }
            } else {
                assert(card_ok(m, x));
                let ch = m2[x].children;
                if x == kp {
                    let old_ch = m[kp].children;
                    assert(ch == old_ch.push(id));
                    assert forall|i: int| 0 <= i < ch.len() implies #[trigger] ch[i] != CardId(x)
                        && m2.contains_key(key(ch[i])) && m2[key(ch[i])].parent_id == Some(
                        CardId(x),
                    ) by {
                        if i < old_ch.len() {
                            assert(ch[i] == old_ch[i]);
                            assert(m.contains_key(key(old_ch[i])));
                        }
                    }
                    assert forall|i: int, j: int| 0 <= i < j < ch.len() implies #[trigger] ch[i]
                        != #[trigger] ch[j] by {
                        assert(ch[i] == old_ch[i]);
                        if j < old_ch.len() {
                            assert(ch[j] == old_ch[j]);
                        } else {
                            assert(m.contains_key(key(old_ch[i])));
                        }
                    }
                    match m[kp].parent_id {
                        Some(pp) => {
                            assert(m.contains_key(key(pp)));
                            if key(pp) == kp {
                                assert(m[kp].children.contains(CardId(kp)));
                                let i = choose|i: int| 0 <= i < old_ch.len() && old_ch[i] == CardId(kp);
                                assert(old_ch[i] != CardId(kp));
                            }
                        },
                        None => {},
                    }
                } else {
                    assert(m2[x] == m[x]);
                    assert forall|i: int| 0 <= i < ch.len() implies #[trigger] ch[i] != CardId(x)
                        && m2.contains_key(key(ch[i])) && m2[key(ch[i])].parent_id == Some(
                        CardId(x),
                    ) by {
                        assert(m.contains_key(key(ch[i])));
                        assert(m[key(ch[i])].parent_id == Some(CardId(x)));
                    }
                    match m[x].parent_id {
                        Some(pp) => {
                            assert(m.contains_key(key(pp)));
                            if key(pp) == kp {
                                let old_ch = m[kp].children;
                                let i = choose|i: int| 0 <= i < old_ch.len() && old_ch[i] == CardId(x);
                                assert(m2[kp].children[i] == CardId(x));
                            }
                        },
                        None => {},
                    }
                }
            }
        }
        let rk = choose|rk: spec_fn(u128) -> nat| ranked_by(m, rk);
        let r2 = |k: u128| if k == kc { rk(kp) + 1 } else { rk(k) };
        assert forall|k: u128|
            #![trigger m2[k]]
            m2.contains_key(k) && m2[k].parent_id is Some implies r2(key(m2[k].parent_id->0))
            < r2(k) by {
            if k != kc {
                assert(m[k].parent_id is Some);
                assert(card_ok(m, k));
                assert(m.contains_key(key(m[k].parent_id->0)));
            }
        }
        assert(ranked_by(m2, r2));
        let w = choose|w: u128| is_root(m, w) && forall|k2: u128| #[trigger] is_root(m, k2) ==> k2 == w;
        assert(is_root(m2, w));
        assert forall|k2: u128| #[trigger] is_root(m2, k2) implies k2 == w by {
            assert(is_root(m, k2));
        }
    }
}

/// Creating a card under the workspace card, with an identifier that no stored
/// card has, keeps a registry well formed.
pub proof fn lemma_workspace_creation_keeps_well_formed(
    m: Map<u128, CardModel>,
    title: Seq<char>,
    description: Option<Seq<char>>,
    r: Result<CardId, crate::error::DomainError>,
    m2: Map<u128, CardModel>,
)
    requires
        well_formed(m),
        workspace_creation(m, title, description, r, m2),
        r matches Ok(id) ==> !m.contains_key(key(id)),
    ensures
        well_formed(m2),
{
    lemma_creation_keeps_well_formed(m, m[the_root(m)].id, title, description, r, m2);
}

/// Replacing a card by one with the same identifier and parent, a title that
/// is not blank, sound note pages and its children in another order keeps a
/// registry well formed.
pub proof fn lemma_children_reordered_keeps_well_formed(
    m: Map<u128, CardModel>,
    k: u128,
    c2: CardModel,
)
    requires
        well_formed(m),
        m.contains_key(k),
        c2.id == m[k].id,
        c2.parent_id == m[k].parent_id,
        !is_blank(c2.title),
        notes_ok(c2.notes),
        c2.children.no_duplicates(),
        forall|x: CardId| #[trigger] c2.children.contains(x) <==> m[k].children.contains(x),
    ensures
        well_formed(m.insert(k, c2)),
{
    let m2 = m.insert(k, c2);
    assert(m2.dom() =~= m.dom());
    assert(card_ok(m, k));
    assert forall|x: u128| m2.contains_key(x) implies #[trigger] card_ok(m2, x) by {
        assert(card_ok(m, x));
        let ch = m2[x].children;
        assert forall|i: int| 0 <= i < ch.len() implies #[trigger] ch[i] != CardId(x)
            && m2.contains_key(key(ch[i])) && m2[key(ch[i])].parent_id == Some(CardId(x)) by {
            if x == k {
                assert(c2.children.contains(ch[i]));
                let j = choose|j: int| 0 <= j < m[k].children.len() && m[k].children[j] == ch[i];
                assert(m[key(m[k].children[j])].parent_id == Some(CardId(x)));
            } else {
                assert(m[key(ch[i])].parent_id == Some(CardId(x)));
            }
        }
        assert forall|i: int, j: int| 0 <= i < j < ch.len() implies #[trigger] ch[i]
            != #[trigger] ch[j] by {
            if x != k {
                assert(m[x].children[i] != m[x].children[j]);
            }
        }
        match m[x].parent_id {
            Some(p) => {
                if key(p) == k {
                    assert(m[k].children.contains(CardId(x)));
                    assert(c2.children.contains(CardId(x)));
                }
            },
            None => {},
        }
    }
    let r = choose|r: spec_fn(u128) -> nat| ranked_by(m, r);
    assert(ranked_by(m2, r));
    let w = choose|w: u128| is_root(m, w) && forall|k2: u128| #[trigger] is_root(m, k2) ==> k2 == w;
    assert(is_root(m2, w));
    assert forall|k2: u128| #[trigger] is_root(m2, k2) implies k2 == w by {
        assert(is_root(m, k2));
    }
}

/// A rearrangement of a list without repeats holds the same items, each once.
pub proof fn lemma_rearrangement_same_items(children: Seq<CardId>, ordered: Seq<CardId>)
    requires
        is_rearrangement(children, ordered),
        children.no_duplicates(),
    ensures
        ordered.no_duplicates(),
        forall|x: CardId| #[trigger] ordered.contains(x) <==> children.contains(x),
{
    assert forall|i: int, j: int| 0 <= i < ordered.len() && 0 <= j < ordered.len() && i != j implies ordered[i] != ordered[j] by {
        if i < j {
            assert(!reorder_fault_at(children, ordered, j));
            assert(ordered.subrange(0, j)[i] == ordered[i]);
        } else {
            assert(!reorder_fault_at(children, ordered, i));
            assert(ordered.subrange(0, i)[j] == ordered[j]);
        }
    }
    assert forall|i: int| 0 <= i < ordered.len() implies children.contains(#[trigger] ordered[i]) by {
        assert(!reorder_fault_at(children, ordered, i));
    }
    ordered.unique_seq_to_set();
    children.unique_seq_to_set();
    assert(ordered.to_set().subset_of(children.to_set()));
    vstd::set_lib::lemma_subset_equality(ordered.to_set(), children.to_set());
    assert forall|x: CardId| #[trigger] ordered.contains(x) <==> children.contains(x) by {
        assert(ordered.to_set().contains(x) == children.to_set().contains(x));
    }
}

/// The children of a card in a well-formed registry are listed once each.
pub proof fn lemma_children_distinct(m: Map<u128, CardModel>, k: u128)
    requires
        well_formed(m),
        m.contains_key(k),
    ensures
        m[k].children.no_duplicates(),
{
    assert(card_ok(m, k));
    let ch = m[k].children;
    assert forall|i: int, j: int| 0 <= i < ch.len() && 0 <= j < ch.len() && i != j implies ch[i] != ch[j] by {
        if i < j {
            assert(ch[i] != ch[j]);
        } else {
            assert(ch[j] != ch[i]);
        }
    }
}

/// Renaming a card keeps a registry well formed.
pub proof fn lemma_rename_card_keeps_well_formed(
    m: Map<u128, CardModel>,
    id: CardId,
    title: Seq<char>,
    r: Result<(), crate::error::DomainError>,
    m2: Map<u128, CardModel>,
)
    requires
        well_formed(m),
        renames_card(m, id, title, r, m2),
    ensures
        well_formed(m2),
{
    if m.contains_key(key(id)) {
        assert(card_ok(m, key(id)));
        if r is Ok {
            lemma_content_edit_keeps_well_formed(m, key(id), m2[key(id)]);
        } else {
            assert(m2 =~= m);
        }
    }
}

/// Replacing a card's description keeps a registry well formed.
pub proof fn lemma_set_description_keeps_well_formed(
    m: Map<u128, CardModel>,
    id: CardId,
    description: Option<Seq<char>>,
    r: Result<(), crate::error::DomainError>,
    m2: Map<u128, CardModel>,
)
    requires
        well_formed(m),
        sets_description(m, id, description, r, m2),
    ensures
        well_formed(m2),
{
    if m.contains_key(key(id)) {
        assert(card_ok(m, key(id)));
        lemma_content_edit_keeps_well_formed(m, key(id), m2[key(id)]);
    }
}

/// Updating a card's details keeps a registry well formed.
pub proof fn lemma_update_details_keeps_well_formed(
    m: Map<u128, CardModel>,
    id: CardId,
    title: Option<Seq<char>>,
    description: Option<Option<Seq<char>>>,
    due_date: Option<Option<Seq<char>>>,
    r: Result<(), crate::error::DomainError>,
    m2: Map<u128, CardModel>,
)
    requires
        well_formed(m),
        updates_details(m, id, title, description, due_date, r, m2),
    ensures
        well_formed(m2),
{
    if m.contains_key(key(id)) {
        assert(card_ok(m, key(id)));
        if r is Ok {
            lemma_content_edit_keeps_well_formed(m, key(id), m2[key(id)]);
        } else {
            assert(m2 =~= m);
        }
    }
}

/// Setting or clearing a card's due date keeps a registry well formed.
pub proof fn lemma_due_date_keeps_well_formed(
    m: Map<u128, CardModel>,
    id: CardId,
    due_date: Option<Seq<char>>,
    r: Result<(), crate::error::DomainError>,
    m2: Map<u128, CardModel>,
)
    requires
        well_formed(m),
        sets_due_date(m, id, due_date, r, m2),
    ensures
        well_formed(m2),
{
    if m.contains_key(key(id)) {
        assert(card_ok(m, key(id)));
        lemma_content_edit_keeps_well_formed(m, key(id), m2[key(id)]);
    }
}

/// Adding a note page whose identifier the card does not use yet keeps a
/// registry well formed.
pub proof fn lemma_add_note_keeps_well_formed(
    m: Map<u128, CardModel>,
    id: CardId,
    title: Seq<char>,
    r: Result<NotePageId, crate::error::DomainError>,
    m2: Map<u128, CardModel>,
)
    requires
        well_formed(m),
        adds_note(m, id, title, r, m2),
        m.contains_key(key(id)) && r is Ok ==> !has_note(m[key(id)].notes, r->Ok_0),
    ensures
        well_formed(m2),
{
    if m.contains_key(key(id)) {
        assert(card_ok(m, key(id)));
        if let Ok(nid) = r {
            lemma_trimmed_not_blank(title);
            let notes = m[key(id)].notes;
            let n2 = m2[key(id)].notes;
            assert(n2 == notes.push(NoteModel { id: nid, title: trimmed(title), body: Seq::empty() }));
            assert forall|i: int| 0 <= i < n2.len() implies !is_blank(#[trigger] n2[i].title) by {
                if i < notes.len() {
                    assert(n2[i] == notes[i]);
                }
            }
            assert forall|i: int, j: int| 0 <= i < j < n2.len() implies (#[trigger] n2[i]).id
                != (#[trigger] n2[j]).id by {
                assert(n2[i] == notes[i]);
                if j < notes.len() {
                    assert(n2[j] == notes[j]);
                }
            }
            lemma_content_edit_keeps_well_formed(m, key(id), m2[key(id)]);
        } else {
            assert(m2 =~= m);
        }
    }
}

/// Renaming a note page keeps a registry well formed.
pub proof fn lemma_rename_note_keeps_well_formed(
    m: Map<u128, CardModel>,
    id: CardId,
    note: NotePageId,
    title: Seq<char>,
    r: Result<(), crate::error::DomainError>,
    m2: Map<u128, CardModel>,
)
    requires
        well_formed(m),
        renames_note(m, id, note, title, r, m2),
    ensures
        well_formed(m2),
{
    if m.contains_key(key(id)) {
        assert(card_ok(m, key(id)));
        if r is Ok {
            let notes = m[key(id)].notes;
            assert(has_note(notes, note));
            let i = choose|i: int| 0 <= i < notes.len() && (#[trigger] notes[i]).id == note && forall|j: int| 0 <= j < i ==> (#[trigger] notes[j]).id != note;
            assert(crate::card::first_note_at(notes, note, i)) by {
                lemma_first_note(notes, note);
            }
            lemma_trimmed_not_blank(title);
            let n2 = m2[key(id)].notes;
            assert forall|a: int| 0 <= a < n2.len() implies !is_blank(#[trigger] n2[a].title) by {
                if a != i {
                    assert(n2[a] == notes[a]);
                }
            }
            assert forall|a: int, b: int| 0 <= a < b < n2.len() implies (#[trigger] n2[a]).id
                != (#[trigger] n2[b]).id by {
                assert(n2[a].id == notes[a].id);
                assert(n2[b].id == notes[b].id);
            }
            lemma_content_edit_keeps_well_formed(m, key(id), m2[key(id)]);
        } else {
            assert(m2 =~= m);
        }
    }
}

/// Saving the body of a note page keeps a registry well formed.
pub proof fn lemma_save_note_body_keeps_well_formed(
    m: Map<u128, CardModel>,
    id: CardId,
    note: NotePageId,
    body: Seq<char>,
    r: Result<(), crate::error::DomainError>,
    m2: Map<u128, CardModel>,
)
    requires
        well_formed(m),
        saves_note_body(m, id, note, body, r, m2),
    ensures
        well_formed(m2),
{
    if m.contains_key(key(id)) {
        assert(card_ok(m, key(id)));
        let notes = m[key(id)].notes;
        if has_note(notes, note) {
            lemma_first_note(notes, note);
            let i = choose|i: int| crate::card::first_note_at(notes, note, i);
            let n2 = m2[key(id)].notes;
            assert forall|a: int| 0 <= a < n2.len() implies !is_blank(#[trigger] n2[a].title) by {
                assert(n2[a].title == notes[a].title);
            }
            assert forall|a: int, b: int| 0 <= a < b < n2.len() implies (#[trigger] n2[a]).id
                != (#[trigger] n2[b]).id by {
                assert(n2[a].id == notes[a].id);
                assert(n2[b].id == notes[b].id);
            }
            lemma_content_edit_keeps_well_formed(m, key(id), m2[key(id)]);
        } else {
            assert(m2 =~= m);
        }
    }
}

/// Where a card has a page of identifier `id`, there is a first one.
pub proof fn lemma_first_note(notes: Seq<NoteModel>, id: NotePageId)
    requires
        has_note(notes, id),
    ensures
        exists|i: int| crate::card::first_note_at(notes, id, i),
    decreases notes.len(),
{
    if notes[0].id == id {
        assert(crate::card::first_note_at(notes, id, 0));
    } else {
        let t = notes.drop_first();
        let j = choose|j: int| 0 <= j < notes.len() && (#[trigger] notes[j]).id == id;
        assert(t[j - 1].id == id);
        lemma_first_note(t, id);
        let i = choose|i: int| crate::card::first_note_at(t, id, i);
        assert forall|a: int| 0 <= a < i + 1 implies (#[trigger] notes[a]).id != id by {
            if a > 0 {
                assert(notes[a] == t[a - 1]);
            }
        }
        assert(crate::card::first_note_at(notes, id, i + 1));
    }
}

/// Taking pages out keeps note pages sound.
pub proof fn lemma_notes_without_sound(notes: Seq<NoteModel>, id: NotePageId)
    requires
        notes_ok(notes),
    ensures
        notes_ok(notes_without(notes, id)),
        forall|n: NoteModel| #[trigger] notes_without(notes, id).contains(n) ==> notes.contains(n),
    decreases notes.len(),
{
    if notes.len() > 0 {
        let init = notes.drop_last();
        assert(notes_ok(init)) by {
            assert forall|i: int| 0 <= i < init.len() implies !is_blank(#[trigger] init[i].title) by {
                assert(init[i] == notes[i]);
            }
            assert forall|i: int, j: int| 0 <= i < j < init.len() implies (#[trigger] init[i]).id
                != (#[trigger] init[j]).id by {
                assert(init[i] == notes[i] && init[j] == notes[j]);
            }
        }
        lemma_notes_without_sound(init, id);
        let w = notes_without(init, id);
        assert forall|n: NoteModel| #[trigger] w.contains(n) implies notes.contains(n) by {
            assert(init.contains(n));
            let i = choose|i: int| 0 <= i < init.len() && init[i] == n;
            assert(notes[i] == n);
        }
        if notes.last().id != id {
            let l = notes.last();
            let w2 = w.push(l);
            assert forall|n: NoteModel| #[trigger] w2.contains(n) implies notes.contains(n) by {
                vstd::seq_lib::lemma_seq_contains_after_push(w, l, n);
                if n == l {
                    assert(notes[notes.len() - 1] == l);
                }
            }
            assert forall|i: int| 0 <= i < w2.len() implies !is_blank(#[trigger] w2[i].title) by {
                if i < w.len() {
                    assert(w2[i] == w[i]);
                } else {
                    assert(notes[notes.len() - 1] == l);
                }
            }
            assert forall|i: int, j: int| 0 <= i < j < w2.len() implies (#[trigger] w2[i]).id
                != (#[trigger] w2[j]).id by {
                assert(w2[i] == w[i]);
                if j < w.len() {
                    assert(w2[j] == w[j]);
                } else {
                    assert(w.contains(w[i]));
                    assert(init.contains(w[i]));
                    let a = choose|a: int| 0 <= a < init.len() && init[a] == w[i];
                    assert(notes[a] == w[i]);
                    assert(notes[notes.len() - 1] == l);
                }
            }
        }
    }
}

/// Deleting a note page keeps a registry well formed.
pub proof fn lemma_delete_note_keeps_well_formed(
    m: Map<u128, CardModel>,
    id: CardId,
    note: NotePageId,
    r: Result<(), crate::error::DomainError>,
    m2: Map<u128, CardModel>,
)
    requires
        well_formed(m),
        deletes_note(m, id, note, r, m2),
    ensures
        well_formed(m2),
{
    if m.contains_key(key(id)) {
        assert(card_ok(m, key(id)));
        if has_note(m[key(id)].notes, note) {
            lemma_notes_without_sound(m[key(id)].notes, note);
            lemma_content_edit_keeps_well_formed(m, key(id), m2[key(id)]);
        } else {
            assert(m2 =~= m);
        }
    }
}

/// Reordering the children of a card keeps a registry well formed.
pub proof fn lemma_reorder_keeps_well_formed(
    m: Map<u128, CardModel>,
    id: CardId,
    ordered: Seq<CardId>,
    r: Result<(), crate::error::DomainError>,
    m2: Map<u128, CardModel>,
)
    requires
        well_formed(m),
        reorders_children(m, id, ordered, r, m2),
    ensures
        well_formed(m2),
{
    if m.contains_key(key(id)) {
        assert(card_ok(m, key(id)));
        if r is Ok {
            lemma_children_distinct(m, key(id));
            lemma_rearrangement_same_items(m[key(id)].children, ordered);
            lemma_children_reordered_keeps_well_formed(m, key(id), m2[key(id)]);
        } else {
            assert(m2 =~= m);
        }
    }
}

/// Moving a child within its parent keeps a registry well formed.
pub proof fn lemma_drop_child_keeps_well_formed(
    m: Map<u128, CardModel>,
    parent: CardId,
    child: CardId,
    target: int,
    r: Result<(), crate::error::DomainError>,
    m2: Map<u128, CardModel>,
)
    requires
        well_formed(m),
        drops_child(m, parent, child, target, r, m2),
    ensures
        well_formed(m2),
{
    if m.contains_key(key(parent)) && m[key(parent)].children.contains(child) {
        lemma_reorder_keeps_well_formed(
            m,
            parent,
            moved(m[key(parent)].children, child, target),
            r,
            m2,
        );
    }
}

/// In a well-formed registry a card is never its parent's parent.
pub proof fn lemma_no_two_cycle(m: Map<u128, CardModel>, a: u128, b: u128)
    requires
        well_formed(m),
        m.contains_key(a),
        m.contains_key(b),
        m[a].parent_id == Some(CardId(b)),
    ensures
        m[b].parent_id != Some(CardId(a)),
{
    let r = choose|r: spec_fn(u128) -> nat| ranked_by(m, r);
    assert(r(b) < r(a));
    if m[b].parent_id == Some(CardId(a)) {
        assert(r(a) < r(b));
    }
}

/// Moving a card under a new parent keeps a registry well formed.
pub proof fn lemma_reparent_keeps_well_formed(
    m: Map<u128, CardModel>,
    c: CardId,
    p: CardId,
    r: Result<(), crate::error::DomainError>,
    m2: Map<u128, CardModel>,
)
    requires
        well_formed(m),
        reparent_outcome(m, c, p, r, m2),
        r is Ok,
    ensures
        well_formed(m2),
{
    let kc = key(c);
    let kp = key(p);
    if m[kc].parent_id == Some(p) {
        return;
    }
    let root = the_root(m);
    assert(is_root(m, root));
    assert(card_ok(m, root));
    assert(card_ok(m, kc));
    assert(CardId(kc) == c);
    assert(CardId(kp) == p);
    assert(m[kc].parent_id is Some) by {
        if m[kc].parent_id is None {
            assert(is_root(m, kc));
            assert(kc == root);
        }
    }
    let o = m[kc].parent_id->0;
    let ko = key(o);
    assert(CardId(ko) == o);
    assert(anc(m, kp, 0) == Some(kp));
    assert(!walk_missing_at(m, kp, 0));
    assert(m.contains_key(kp));
    assert(m.contains_key(ko));
    assert(m[ko].children.contains(c));
    assert(card_ok(m, ko));
    assert(card_ok(m, kp));
    assert(ko != kc) by {
        let i = choose|i: int| 0 <= i < m[ko].children.len() && m[ko].children[i] == c;
        assert(m[ko].children[i] != CardId(ko));
    }
    assert(kp != kc);
    assert(ko != kp);
    // p is not a child of c: the walk up from p would meet c at its first step.
    assert(m[kp].parent_id != Some(c)) by {
        if m[kp].parent_id == Some(c) {
            lemma_anc_parent(m, kp, 0);
            assert(anc(m, kp, 1) == Some(kc));
        }
    }
    lemma_no_two_cycle(m, kc, ko);
    let m1 = adopted(m, p, c);
    let mr = released(m1, o, c);
    assert(m2 == reattached(mr, c, p));
    assert(m2.dom() =~= m.dom());
    lemma_children_distinct(m, ko);
    crate::ordering::lemma_remove_all(m[ko].children, c);
    assert(m2[kp].children == m[kp].children.push(c));
    assert(m2[ko].children == remove_all(m[ko].children, c));
    assert(m2[kc].children == m[kc].children);
    assert(m2[kc].parent_id == Some(p));
    assert forall|x: u128| m2.contains_key(x) && x != kc implies m2[x].parent_id == m[x].parent_id by {}
    assert forall|x: u128|
        m2.contains_key(x) && x != kp && x != ko implies m2[x].children == m[x].children by {}
    assert(!m[kp].children.contains(c)) by {
        if m[kp].children.contains(c) {
            let i = choose|i: int| 0 <= i < m[kp].children.len() && m[kp].children[i] == c;
            assert(m[key(m[kp].children[i])].parent_id == Some(CardId(kp)));
        }
    }
    assert forall|x: u128| m2.contains_key(x) implies #[trigger] card_ok(m2, x) by {
        assert(card_ok(m, x));
        let ch = m2[x].children;
        // every child of x points back to x
        assert forall|i: int| 0 <= i < ch.len() implies #[trigger] ch[i] != CardId(x)
            && m2.contains_key(key(ch[i])) && m2[key(ch[i])].parent_id == Some(CardId(x)) by {
            if x == kp {
                if i < m[kp].children.len() {
                    assert(ch[i] == m[kp].children[i]);
                    assert(m[key(ch[i])].parent_id == Some(CardId(kp)));
                    assert(key(ch[i]) != kc);
                }
            } else if x == ko {
                assert(remove_all(m[ko].children, c).contains(ch[i]));
                assert(m[ko].children.contains(ch[i]));
                let j = choose|j: int| 0 <= j < m[ko].children.len() && m[ko].children[j] == ch[i];
                assert(m[key(m[ko].children[j])].parent_id == Some(CardId(ko)));
                assert(ch[i] != c);
            } else {
                assert(ch[i] == m[x].children[i]);
                assert(m[key(ch[i])].parent_id == Some(CardId(x)));
                if key(ch[i]) == kc {
                    assert(CardId(x) == o);
                }
            }
        }
        assert forall|i: int, j: int| 0 <= i < j < ch.len() implies #[trigger] ch[i]
            != #[trigger] ch[j] by {
            if x == kp {
                if j < m[kp].children.len() {
                    assert(ch[i] == m[kp].children[i] && ch[j] == m[kp].children[j]);
                } else {
                    assert(ch[i] == m[kp].children[i]);
                    assert(m[kp].children.contains(ch[i]));
                }
            } else if x == ko {
                assert(ch.no_duplicates());
            } else {
                assert(ch[i] == m[x].children[i] && ch[j] == m[x].children[j]);
            }
        }
        // the parent of x lists x
        match m2[x].parent_id {
            Some(q) => {
                if x == kc {
                    assert(m2[kp].children[m2[kp].children.len() - 1] == c);
                    assert(m2[kp].children.contains(CardId(x)));
                } else {
                    assert(m[x].parent_id == Some(q));
                    assert(m.contains_key(key(q)));
                    assert(m[key(q)].children.contains(CardId(x)));
                    let j = choose|j: int| 0 <= j < m[key(q)].children.len() && m[key(q)].children[j] == CardId(x);
                    if key(q) == kp {
                        assert(m2[kp].children[j] == CardId(x));
                    } else if key(q) == ko {
                        assert(CardId(x) != c);
                        assert(remove_all(m[ko].children, c).contains(CardId(x)));
                    } else {
                        assert(m2[key(q)].children == m[key(q)].children);
                    }
                }
            },
            None => {},
        }
    }
    // a ranking for the new registry: the cards below c, and c, move up above p
    let rk = choose|rk: spec_fn(u128) -> nat| ranked_by(m, rk);
    let below = |k: u128| crate::registry::model::is_descendant_or_self(m, k, kc);
    let r2 = |k: u128| if below(k) { rk(k) + rk(kp) + 1 } else { rk(k) };
    assert(anc(m, kc, 0) == Some(kc));
    assert(below(kc));
    assert(!below(kp));
    assert forall|k: u128|
        #![trigger m2[k]]
        m2.contains_key(k) && m2[k].parent_id is Some implies r2(key(m2[k].parent_id->0)) < r2(k) by {
        if k != kc {
            let q = m[k].parent_id->0;
            assert(rk(key(q)) < rk(k));
            if below(k) {
                let n = choose|n: nat| anc(m, k, n) == Some(kc);
                assert(n > 0);
                lemma_anc_parent(m, k, (n - 1) as nat);
                assert(anc(m, key(q), (n - 1) as nat) == Some(kc));
                assert(below(key(q)));
            } else if below(key(q)) {
                let n = choose|n: nat| anc(m, key(q), n) == Some(kc);
                lemma_anc_parent(m, k, n);
                assert(anc(m, k, n + 1) == Some(kc));
            }
        }
    }
    assert(ranked_by(m2, r2));
    assert forall|k2: u128| #[trigger] is_root(m2, k2) <==> is_root(m, k2) by {}
    let w = choose|w: u128| is_root(m, w) && forall|k2: u128| #[trigger] is_root(m, k2) ==> k2 == w;
    assert(is_root(m2, w));
}

/// In a well-formed registry, whether a card may be moved under another can
/// always be decided.
pub proof fn lemma_well_formed_reparent_decidable(m: Map<u128, CardModel>, c: CardId, p: CardId)
    requires
        well_formed(m),
    ensures
        reparent_decidable(m, c, p),
{
    let rk = choose|rk: spec_fn(u128) -> nat| ranked_by(m, rk);
    lemma_walk_ends(m, rk, key(p));
    let n = choose|n: nat| #[trigger] anc(m, key(p), n) is None;
    assert(walk_stops(m, key(p), key(c)));
}

/// A child of a card below `k` is below `k` too.
pub proof fn lemma_below_closed(m: Map<u128, CardModel>, y: u128, k: u128)
    requires
        m.contains_key(y),
        m[y].parent_id is Some,
        is_descendant_or_self(m, key(m[y].parent_id->0), k),
    ensures
        is_descendant_or_self(m, y, k),
{
    let n = choose|n: nat| anc(m, key(m[y].parent_id->0), n) == Some(k);
    lemma_anc_parent(m, y, n);
    assert(anc(m, y, n + 1) == Some(k));
}

/// Deleting a card that is not the workspace card, with everything below it,
/// keeps a registry well formed.
pub proof fn lemma_pruned_keeps_well_formed(m: Map<u128, CardModel>, c: CardId)
    requires
        well_formed(m),
        m.contains_key(key(c)),
        m[key(c)].parent_id is Some,
    ensures
        well_formed(pruned(m, c)),
{
    let kc = key(c);
    let p = m[kc].parent_id->0;
    let kp = key(p);
    let m2 = pruned(m, c);
    let below = |x: u128| is_descendant_or_self(m, x, kc);
    assert(card_ok(m, kc));
    assert(CardId(kc) == c);
    assert(anc(m, kc, 0) == Some(kc));
    assert(below(kc));
    lemma_parent_not_below(m, kc);
    assert(!below(kp));
    assert(m.contains_key(kp));
    assert(card_ok(m, kp));
    lemma_children_distinct(m, kp);
    lemma_remove_all(m[kp].children, c);
    assert(m2.dom() =~= m.dom().filter(|x: u128| !below(x)));
    assert forall|x: u128| m2.contains_key(x) implies m2[x] == (if x == kp {
        CardModel { children: remove_all(m[kp].children, c), ..m[kp] }
    } else {
        m[x]
    }) by {}
    assert forall|x: u128| m2.contains_key(x) implies #[trigger] card_ok(m2, x) by {
        assert(card_ok(m, x));
        assert(!below(x));
        let ch = m2[x].children;
        assert forall|i: int| 0 <= i < ch.len() implies #[trigger] ch[i] != CardId(x)
            && m2.contains_key(key(ch[i])) && m2[key(ch[i])].parent_id == Some(CardId(x)) by {
            let y = ch[i];
            assert(m[x].children.contains(y)) by {
                if x == kp {
                    assert(remove_all(m[kp].children, c).contains(y));
                } else {
                    assert(m[x].children[i] == y);
                }
            }
            let j = choose|j: int| 0 <= j < m[x].children.len() && m[x].children[j] == y;
            assert(m[key(m[x].children[j])].parent_id == Some(CardId(x)));
            assert(m.contains_key(key(y)));
            if below(key(y)) {
                let n = choose|n: nat| anc(m, key(y), n) == Some(kc);
                if n == 0 {
                    assert(y == c);
                    assert(x == kp);
                    assert(remove_all(m[kp].children, c).contains(y));
                } else {
                    lemma_anc_parent(m, key(y), (n - 1) as nat);
                    assert(anc(m, x, (n - 1) as nat) == Some(kc));
                    assert(below(x));
                }
            }
        }
        assert forall|i: int, j: int| 0 <= i < j < ch.len() implies #[trigger] ch[i]
            != #[trigger] ch[j] by {
            if x == kp {
                assert(ch.no_duplicates());
            } else {
                assert(ch[i] == m[x].children[i] && ch[j] == m[x].children[j]);
            }
        }
        match m[x].parent_id {
            Some(q) => {
                assert(m.contains_key(key(q)));
                if below(key(q)) {
                    lemma_below_closed(m, x, kc);
                }
                assert(m[key(q)].children.contains(CardId(x)));
                if key(q) == kp {
                    assert(CardId(x) != c);
                    assert(remove_all(m[kp].children, c).contains(CardId(x)));
                }
            },
            None => {},
        }
    }
    let rk = choose|rk: spec_fn(u128) -> nat| ranked_by(m, rk);
    assert(ranked_by(m2, rk));
    let w = choose|w: u128| is_root(m, w) && forall|k2: u128| #[trigger] is_root(m, k2) ==> k2 == w;
    assert(!below(w)) by {
        if below(w) {
            let n = choose|n: nat| anc(m, w, n) == Some(kc);
            if n == 0 {
                assert(is_root(m, kc));
            } else {
                lemma_anc_step(m, w, 0);
                lemma_anc_none(m, w, 1, n);
            }
        }
    }
    assert(is_root(m2, w));
    assert forall|k2: u128| #[trigger] is_root(m2, k2) implies k2 == w by {
        assert(is_root(m, k2));
    }
}

/// Deleting a card that is not the workspace card and giving its children to
/// its parent keeps a registry well formed.
pub proof fn lemma_lifted_keeps_well_formed(m: Map<u128, CardModel>, c: CardId)
    requires
        well_formed(m),
        m.contains_key(key(c)),
        m[key(c)].parent_id is Some,
    ensures
        well_formed(lifted(m, c)),
{
    let kc = key(c);
    let g = m[kc].parent_id->0;
    let kg = key(g);
    let ch = m[kc].children;
    let m2 = lifted(m, c);
    let rk = choose|rk: spec_fn(u128) -> nat| ranked_by(m, rk);
    assert(card_ok(m, kc));
    assert(CardId(kc) == c);
    assert(CardId(kg) == g);
    assert(m.contains_key(kg));
    assert(card_ok(m, kg));
    assert(rk(kg) < rk(kc));
    lemma_children_distinct(m, kg);
    lemma_children_distinct(m, kc);
    lemma_remove_all(m[kg].children, c);
    let first = remove_all(m[kg].children, c);
    assert(kg != kc) by {
        let j = choose|j: int| 0 <= j < m[kg].children.len() && m[kg].children[j] == c;
    }
    // facts about the children of c
    assert forall|y: CardId| #[trigger] ch.contains(y) implies m.contains_key(key(y)) && m[key(
        y,
    )].parent_id == Some(c) && key(y) != kc && key(y) != kg && !first.contains(y) && rk(kc) < rk(key(y)) by {
        let j = choose|j: int| 0 <= j < ch.len() && ch[j] == y;
        assert(m[key(ch[j])].parent_id == Some(CardId(kc)));
        assert(CardId(key(y)) == y);
        if key(y) == kg {
            lemma_no_two_cycle(m, key(y), kc);
        }
        if first.contains(y) {
            assert(m[kg].children.contains(y));
            let a = choose|a: int| 0 <= a < m[kg].children.len() && m[kg].children[a] == y;
            assert(m[key(m[kg].children[a])].parent_id == Some(CardId(kg)));
        }
    }
    assert forall|z: CardId| #[trigger] first.contains(z) implies m.contains_key(key(z)) && m[key(
        z,
    )].parent_id == Some(g) && key(z) != kc && !ch.contains(z) by {
        assert(m[kg].children.contains(z));
        let a = choose|a: int| 0 <= a < m[kg].children.len() && m[kg].children[a] == z;
        assert(m[key(m[kg].children[a])].parent_id == Some(CardId(kg)));
        assert(CardId(key(z)) == z);
    }
    assert(m2.dom() =~= m.dom().remove(kc));
    assert forall|x: u128| m2.contains_key(x) implies #[trigger] card_ok(m2, x) by {
        assert(card_ok(m, x));
        let chx = m2[x].children;
        if x == kg {
            assert(chx == first + ch);
            assert forall|i: int| 0 <= i < chx.len() implies #[trigger] chx[i] != CardId(x)
                && m2.contains_key(key(chx[i])) && m2[key(chx[i])].parent_id == Some(CardId(x)) by {
                let z = chx[i];
                if i < first.len() {
                    assert(first.contains(z) && z == first[i]);
                    assert(key(z) != kg) by {
                        assert(m[kg].children.contains(z));
                        let a = choose|a: int| 0 <= a < m[kg].children.len() && m[kg].children[a] == z;
                    }
                } else {
                    assert(z == ch[i - first.len()]);
                    assert(ch.contains(z));
                }
            }
            assert forall|i: int, j: int| 0 <= i < j < chx.len() implies #[trigger] chx[i]
                != #[trigger] chx[j] by {
                if j < first.len() {
                    assert(first.no_duplicates());
                    assert(chx[i] == first[i] && chx[j] == first[j]);
                } else if i >= first.len() {
                    assert(chx[i] == ch[i - first.len()] && chx[j] == ch[j - first.len()]);
                } else {
                    assert(first.contains(chx[i]));
                    assert(chx[j] == ch[j - first.len()]);
                    assert(ch.contains(chx[j]));
                }
            }
            match m[kg].parent_id {
                Some(q) => {
                    assert(m.contains_key(key(q)));
                    assert(key(q) != kc) by {
                        if key(q) == kc {
                            lemma_no_two_cycle(m, kc, kg);
                        }
                    }
                    assert(!ch.contains(q)) by {
                        if ch.contains(q) {
                            assert(rk(key(q)) < rk(kg));
                        }
                    }
                    assert(CardId(key(q)) == q);
                    assert(key(q) != kg);
                    assert(m2[key(q)].children == m[key(q)].children);
                },
                None => {},
            }
        } else if ch.contains(CardId(x)) {
            assert(chx == m[x].children);
            assert(m2[kg].children.contains(CardId(x))) by {
                let j = choose|j: int| 0 <= j < ch.len() && ch[j] == CardId(x);
                assert(m2[kg].children[first.len() + j] == CardId(x));
            }
            assert forall|i: int| 0 <= i < chx.len() implies #[trigger] chx[i] != CardId(x)
                && m2.contains_key(key(chx[i])) && m2[key(chx[i])].parent_id == Some(CardId(x)) by {
                let z = chx[i];
                assert(m[key(chx[i])].parent_id == Some(CardId(x)));
                assert(CardId(key(z)) == z);
                assert(key(z) != kc);
                assert(!ch.contains(z));
                if key(z) == kg {
                    assert(rk(x) < rk(kg));
                    assert(rk(kc) < rk(x));
                }
            }
        } else {
            assert(m2[x] == m[x]);
            assert forall|i: int| 0 <= i < chx.len() implies #[trigger] chx[i] != CardId(x)
                && m2.contains_key(key(chx[i])) && m2[key(chx[i])].parent_id == Some(CardId(x)) by {
                let z = chx[i];
                assert(m[key(chx[i])].parent_id == Some(CardId(x)));
                assert(CardId(key(z)) == z);
                assert(key(z) != kc);
                assert(!ch.contains(z));
            }
            match m[x].parent_id {
                Some(q) => {
                    assert(m.contains_key(key(q)));
                    assert(m[key(q)].children.contains(CardId(x)));
                    assert(CardId(key(q)) == q);
                    if key(q) == kc {
                        assert(ch.contains(CardId(x)));
                    } else if key(q) == kg {
                        assert(CardId(x) != c);
                        assert(first.contains(CardId(x)));
                        let j = choose|j: int| 0 <= j < first.len() && first[j] == CardId(x);
                        assert(m2[kg].children[j] == CardId(x));
                    } else {
                        assert(m2[key(q)].children == m[key(q)].children);
                    }
                },
                None => {},
            }
        }
    }
    assert forall|k: u128|
        #![trigger m2[k]]
        m2.contains_key(k) && m2[k].parent_id is Some implies rk(key(m2[k].parent_id->0)) < rk(k) by {
        if ch.contains(CardId(k)) {
            assert(CardId(k).0 == k);
        } else if k != kg {
            assert(m2[k] == m[k]);
        }
    }
    assert(ranked_by(m2, rk));
    let w = choose|w: u128| is_root(m, w) && forall|k2: u128| #[trigger] is_root(m, k2) ==> k2 == w;
    assert(w != kc);
    assert(!ch.contains(CardId(w))) by {
        if ch.contains(CardId(w)) {
            assert(CardId(w).0 == w);
        }
    }
    assert(is_root(m2, w));
    assert forall|k2: u128| #[trigger] is_root(m2, k2) implies k2 == w by {
        if ch.contains(CardId(k2)) {
        } else {
            assert(is_root(m, k2));
        }
    }
}

/// Deleting a card keeps a registry well formed.
pub proof fn lemma_delete_keeps_well_formed(
    m: Map<u128, CardModel>,
    c: CardId,
    s: DeleteStrategy,
    r: Result<(), crate::error::DomainError>,
    m2: Map<u128, CardModel>,
)
    requires
        well_formed(m),
        delete_outcome(m, c, s, r, m2),
    ensures
        well_formed(m2),
{
    if r is Ok {
        let kc = key(c);
        let root = the_root(m);
        assert(is_root(m, root));
        assert(card_ok(m, root));
        assert(card_ok(m, kc));
        assert(CardId(kc) == c);
        assert(m[kc].parent_id is Some) by {
            if m[kc].parent_id is None {
                assert(is_root(m, kc));
            }
        }
        if m[kc].children.len() > 0 && s == DeleteStrategy::ReparentToGrandparent {
            lemma_lifted_keeps_well_formed(m, c);
        } else {
            if m[kc].children.len() == 0 {
                lemma_leaf_delete_is_pruned(m, c);
            }
            lemma_pruned_keeps_well_formed(m, c);
        }
    }
}

/// In a registry where no card is its own ancestor, the walk up from any new
/// parent ends, so every move can be decided.
pub proof fn lemma_acyclic_reparent_decidable(m: Map<u128, CardModel>, c: CardId, p: CardId)
    requires
        acyclic(m),
    ensures
        reparent_decidable(m, c, p),
{
    let rk = choose|rk: spec_fn(u128) -> nat| ranked_by(m, rk);
    lemma_walk_ends(m, rk, key(p));
    let n = choose|n: nat| #[trigger] anc(m, key(p), n) is None;
    assert(walk_stops(m, key(p), key(c)));
}

/// A move, whether it succeeds or stops, keeps a registry where no card is its
/// own ancestor so.
pub proof fn lemma_reparent_keeps_acyclic(
    m: Map<u128, CardModel>,
    c: CardId,
    p: CardId,
    r: Result<(), crate::error::DomainError>,
    m2: Map<u128, CardModel>,
)
    requires
        acyclic(m),
        reparent_outcome(m, c, p, r, m2),
    ensures
        acyclic(m2),
{
    let rk = choose|rk: spec_fn(u128) -> nat| ranked_by(m, rk);
    let kc = key(c);
    let kp = key(p);
    if m2 == m {
        return;
    }
    // Every branch that changes the registry comes after the walk up from `p`,
    // which meets neither `c` nor a missing card; so `p` and `c` are stored.
    assert(single_root(m) && c != m[the_root(m)].id && c != p);
    assert(!crate::registry::moves::walk_meets(m, kp, kc));
    assert(!walk_missing_at(m, kp, 0));
    assert(anc(m, kp, 0) == Some(kp));
    assert(m.contains_key(kp));
    assert(m.contains_key(kc));
    assert(m[kc].parent_id != Some(p));
    if r is Err {
        // Only the children of `p` changed.
        let o = m[kc].parent_id->0;
        assert(m2 == adopted(m, p, c));
        assert forall|k: u128|
            #![trigger m2[k]]
            m2.contains_key(k) && m2[k].parent_id is Some implies rk(key(m2[k].parent_id->0))
            < rk(k) by {
            assert(m2[k].parent_id == m[k].parent_id);
        }
        assert(ranked_by(m2, rk));
    } else {
        let below = |k: u128| is_descendant_or_self(m, k, kc);
        let r2 = |k: u128| if below(k) { rk(k) + rk(kp) + 1 } else { rk(k) };
        assert(anc(m, kc, 0) == Some(kc));
        assert(below(kc));
        assert(!below(kp));
        assert forall|k: u128| m2.contains_key(k) && k != kc implies m2[k].parent_id
            == m[k].parent_id && m.contains_key(k) by {}
        assert(m2.contains_key(kc) && m2[kc].parent_id == Some(p));
        assert forall|k: u128|
            #![trigger m2[k]]
            m2.contains_key(k) && m2[k].parent_id is Some implies r2(key(m2[k].parent_id->0))
            < r2(k) by {
            if k != kc {
                let q = m[k].parent_id->0;
                assert(rk(key(q)) < rk(k));
                if below(k) {
                    let n = choose|n: nat| anc(m, k, n) == Some(kc);
                    assert(n > 0);
                    lemma_anc_parent(m, k, (n - 1) as nat);
                    assert(anc(m, key(q), (n - 1) as nat) == Some(kc));
                    assert(below(key(q)));
                } else if below(key(q)) {
                    let n = choose|n: nat| anc(m, key(q), n) == Some(kc);
                    lemma_anc_parent(m, k, n);
                    assert(anc(m, k, n + 1) == Some(kc));
                }
            }
        }
        assert(ranked_by(m2, r2));
    }
}

} // verus!
