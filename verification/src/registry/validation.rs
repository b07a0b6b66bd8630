//! Integrity checking of a registry: record by record, then the registry's shape.

use crate::card::Card;
use crate::error::DomainError;
use crate::ids::{ulid_text, CardId};
use crate::registry::model::{
    acyclic, anc, card_ok, chain_ok, children_ok, is_root, key, lemma_anc_step,
    lemma_chains_give_ranking, lemma_distinct_within, lemma_ranked_no_repeat, notes_ok,
    parent_ok, ranked_by, root_at, single_root, well_formed,
};
use crate::card::CardModel;
use crate::text::{decimal, usize_text};
use crate::ordering::contains_value;
use crate::registry::CardRegistry;
use crate::text::{is_blank, is_blank_str};
use vstd::prelude::*;
use vstd::seq_lib::lemma_seq_contains_after_push;
use vstd::string::*;

verus! {

broadcast use vstd::std_specs::hash::group_hash_axioms;

/// `prefix`, the text of `id`, then `suffix`.
pub fn text_with_id(prefix: &str, id: CardId, suffix: &str) -> (r: String)
    ensures
        r@ == prefix@ + ulid_text(id.0) + suffix@,
{
    let mut s = String::from_str(prefix);
    let t = id.to_text();
    s.append(t.as_str());
    s.append(suffix);
    s
}

/// `a`, the text of `id1`, `b`, the text of `id2`, then `c`.
pub fn text_with_ids(a: &str, id1: CardId, b: &str, id2: CardId, c: &str) -> (r: String)
    ensures
        r@ == a@ + ulid_text(id1.0) + b@ + ulid_text(id2.0) + c@,
{
    let mut s = text_with_id(a, id1, b);
    let t = id2.to_text();
    s.append(t.as_str());
    s.append(c);
    s
}



/// A fault of the record `c` stored under `k`, with the text that reports it:
/// a key that is not the card's identifier, or a blank title.
pub open spec fn own_fault_text(k: u128, c: CardModel, t: Seq<char>) -> bool {
    ||| key(c.id) != k && t == "Registry key "@ + ulid_text(k) + " does not match card id "@
        + ulid_text(c.id.0) + ""@
    ||| is_blank(c.title) && t == "Card "@ + ulid_text(k) + " has a blank title in persisted state"@
}

/// A fault among the note pages of `c`, with its text: a blank title, or two
/// pages with one identifier.
pub open spec fn note_fault_text(c: CardModel, t: Seq<char>) -> bool {
    ||| (exists|i: int| 0 <= i < c.notes.len() && is_blank(#[trigger] c.notes[i].title)) && t
        == "Card "@ + ulid_text(c.id.0) + " contains a note page with a blank title"@
    ||| exists|a: int, b: int|
        0 <= a < b < c.notes.len() && (#[trigger] c.notes[a]).id == (#[trigger] c.notes[b]).id
            && t == "Card "@ + ulid_text(c.id.0) + " contains duplicate note page id "@
            + ulid_text(c.notes[b].id.0)
}

/// A fault in the parent reference of the card under `k`, with its text: a
/// parent that is not stored, or one that does not list the card.
pub open spec fn parent_fault_text(m: Map<u128, CardModel>, k: u128, t: Seq<char>) -> bool {
    match m[k].parent_id {
        Some(p) => if m.contains_key(key(p)) {
            !m[key(p)].children.contains(CardId(k)) && t == "Parent "@ + ulid_text(p.0)
                + " is missing child reference to "@ + ulid_text(k) + ""@
        } else {
            t == "Card "@ + ulid_text(k) + " references missing parent "@ + ulid_text(p.0) + ""@
        },
        None => false,
    }
}

/// A fault in the children listed by the card under `k`, with its text.
pub open spec fn child_fault_text(m: Map<u128, CardModel>, k: u128, t: Seq<char>) -> bool {
    let ch = m[k].children;
    ||| ch.contains(CardId(k)) && t == "Card "@ + ulid_text(k) + " cannot reference itself as a child"@
    ||| exists|a: int, b: int|
        0 <= a < b < ch.len() && #[trigger] ch[a] == #[trigger] ch[b] && t == "Card "@ + ulid_text(k)
            + " contains duplicate child reference "@ + ulid_text(ch[b].0) + ""@
    ||| exists|x: CardId, k2: u128|
        k2 != k && m.contains_key(k2) && #[trigger] m[k2].children.contains(x) && #[trigger] ch.contains(x)
            && t == "Child card "@ + ulid_text(x.0) + " is referenced by more than one parent"@
    ||| exists|x: CardId|
        #[trigger] ch.contains(x) && m.contains_key(key(x)) && m[key(x)].parent_id != Some(CardId(k))
            && t == "Child "@ + ulid_text(x.0) + " does not point back to parent "@ + ulid_text(k)
            + ""@
    ||| exists|x: CardId|
        #[trigger] ch.contains(x) && !m.contains_key(key(x)) && t == "Card "@ + ulid_text(k)
            + " references missing child "@ + ulid_text(x.0) + ""@
}

/// A fault on the chain of parents from `k`, with its text: the chain runs in
/// a cycle, or reaches a parent that is not stored.
pub open spec fn chain_fault_text(m: Map<u128, CardModel>, k: u128, t: Seq<char>) -> bool {
    ||| !acyclic(m) && exists|n: nat, p: u128|
        #![trigger anc(m, k, n), ulid_text(p)]
        anc(m, k, n) == Some(p) && t == "Card "@ + ulid_text(k)
            + " participates in a parent cycle involving "@ + ulid_text(p) + ""@
    ||| exists|n: nat, p: u128|
        #![trigger anc(m, k, n), ulid_text(p)]
        anc(m, k, n) == Some(p) && !m.contains_key(p) && t == "Card "@ + ulid_text(k)
            + " references missing ancestor "@ + ulid_text(p) + ""@
}

/// A fault of the stored card under `k`, with the text that reports it.
pub open spec fn record_fault_text(m: Map<u128, CardModel>, k: u128, t: Seq<char>) -> bool {
    &&& m.contains_key(k)
    &&& {
        ||| own_fault_text(k, m[k], t)
        ||| note_fault_text(m[k], t)
        ||| parent_fault_text(m, k, t)
        ||| child_fault_text(m, k, t)
        ||| chain_fault_text(m, k, t)
    }
}

/// Checks that a card is stored under its own identifier and has a title.
fn check_card_key_and_title(k: u128, card: &Card) -> (r: Result<(), DomainError>)
    ensures
        r is Ok <==> key(card@.id) == k && !is_blank(card@.title),
        r matches Err(e) ==> e is InvalidOperation,
        r matches Err(DomainError::InvalidOperation(msg)) ==> own_fault_text(k, card@, msg@),
{
    if card.id().0 != k {
        return Err(
            DomainError::InvalidOperation(
                text_with_ids("Registry key ", CardId(k), " does not match card id ", card.id(), ""),
            ),
        );
    }
    if is_blank_str(card.title()) {
        return Err(
            DomainError::InvalidOperation(
                text_with_id("Card ", CardId(k), " has a blank title in persisted state"),
            ),
        );
    }
    Ok(())
}

/// Checks that a card's note pages have titles and distinct identifiers.
fn check_note_pages(card: &Card) -> (r: Result<(), DomainError>)
    ensures
        r is Ok <==> notes_ok(card@.notes),
        r matches Err(e) ==> e is InvalidOperation,
        r matches Err(DomainError::InvalidOperation(msg)) ==> note_fault_text(card@, msg@),
{
    let notes = card.notes();
    let mut i: usize = 0;
    while i < notes.len()
        invariant
            i <= notes@.len(),
            crate::card::note_models(notes@) == card@.notes,
            forall|j: int| 0 <= j < i ==> !is_blank(#[trigger] card@.notes[j].title),
            forall|a: int, b: int|
                0 <= a < b < i ==> (#[trigger] card@.notes[a]).id != (#[trigger] card@.notes[b]).id,
        decreases notes@.len() - i,
    {
        let note = &notes[i];
        assert(card@.notes[i as int] == note@);
        if is_blank_str(note.title()) {
            return Err(
                DomainError::InvalidOperation(
                    text_with_id("Card ", card.id(), " contains a note page with a blank title"),
                ),
            );
        }
        let mut j: usize = 0;
        while j < i
            invariant
                j <= i < notes@.len(),
                crate::card::note_models(notes@) == card@.notes,
                card@.notes[i as int] == note@,
                forall|a: int| 0 <= a < j ==> (#[trigger] card@.notes[a]).id != note@.id,
            decreases i - j,
        {
            assert(card@.notes[j as int] == notes@[j as int]@);
            if notes[j].id() == note.id() {
                let mut m = text_with_id("Card ", card.id(), " contains duplicate note page id ");
                let t = note.id().to_text();
                m.append(t.as_str());
                return Err(DomainError::InvalidOperation(m));
            }
            j = j + 1;
        }
        i = i + 1;
    }
    Ok(())
}

impl CardRegistry {
    /// Checks that a card's parent exists and lists the card as a child.
    fn check_parent_reference(&self, k: u128, card: &Card) -> (r: Result<(), DomainError>)
        requires
            self@.contains_key(k),
            card@ == self@[k],
        ensures
            r is Ok <==> parent_ok(self@, k),
            r matches Err(e) ==> e is InvalidOperation,
            r matches Err(DomainError::InvalidOperation(msg)) ==> parent_fault_text(self@, k, msg@),
    {
        match card.parent_id() {
            Some(p) => {
                match self.get_card(p) {
                    Ok(parent) => {
                        if !contains_value(parent.children_ids(), CardId(k)) {
                            return Err(
                                DomainError::InvalidOperation(
                                    text_with_ids(
                                        "Parent ",
                                        p,
                                        " is missing child reference to ",
                                        CardId(k),
                                        "",
                                    ),
                                ),
                            );
                        }
                        Ok(())
                    },
                    Err(_) => Err(
                        DomainError::InvalidOperation(
                            text_with_ids("Card ", CardId(k), " references missing parent ", p, ""),
                        ),
                    ),
                }
            },
            None => Ok(()),
        }
    }

    /// Checks that a card's children exist, point back to it, and are listed
    /// once, here and over all cards checked so far (`referenced`).
    fn check_child_references(
        &self,
        k: u128,
        card: &Card,
        referenced: &mut Vec<CardId>,
    ) -> (r: Result<(), DomainError>)
        requires
            self@.contains_key(k),
            card@ == self@[k],
        ensures
            r is Ok ==> children_ok(self@, k) && (forall|x: CardId|
                #[trigger] final(referenced)@.contains(x) <==> old(referenced)@.contains(x)
                    || self@[k].children.contains(x)),
            r is Err ==> !children_ok(self@, k) || exists|x: CardId|
                #[trigger] old(referenced)@.contains(x) && self@[k].children.contains(x),
            r matches Err(e) ==> e is InvalidOperation,
            r matches Err(DomainError::InvalidOperation(msg)) ==> child_fault_text(self@, k, msg@)
                || exists|x: CardId|
                #[trigger] old(referenced)@.contains(x) && self@[k].children.contains(x) && msg@
                    == "Child card "@ + ulid_text(x.0) + " is referenced by more than one parent"@,
    {
        let ghost m = self@;
        let ch = card.children_ids();
        let mut i: usize = 0;
        while i < ch.len()
            invariant
                i <= ch@.len(),
                ch@ == m[k].children,
                m == self@,
                m.contains_key(k),
                forall|j: int|
                    0 <= j < i ==> #[trigger] ch@[j] != CardId(k) && m.contains_key(key(ch@[j]))
                        && m[key(ch@[j])].parent_id == Some(CardId(k)),
                forall|a: int, b: int| 0 <= a < b < i ==> #[trigger] ch@[a] != #[trigger] ch@[b],
                forall|x: CardId|
                    #[trigger] referenced@.contains(x) <==> old(referenced)@.contains(x)
                        || ch@.subrange(0, i as int).contains(x),
                forall|j: int| 0 <= j < i ==> !old(referenced)@.contains(#[trigger] ch@[j]),
            decreases ch@.len() - i,
        {
            let c = ch[i];
            if c == CardId(k) {
                return Err(
                    DomainError::InvalidOperation(
                        text_with_id("Card ", CardId(k), " cannot reference itself as a child"),
                    ),
                );
            }
            if crate::ordering::prefix_contains_value(ch, i, c) {
                proof {
                    let a = choose|a: int| 0 <= a < i && ch@.subrange(0, i as int)[a] == c;
                    assert(ch@[a] == ch@[i as int]);
                }
                return Err(
                    DomainError::InvalidOperation(
                        text_with_ids("Card ", CardId(k), " contains duplicate child reference ", c, ""),
                    ),
                );
            }
            proof {
                assert forall|a: int| 0 <= a < i implies ch@[a] != c by {
                    assert(ch@.subrange(0, i as int)[a] == ch@[a]);
                }
            }
            if contains_value(referenced.as_slice(), c) {
                proof {
                    if !old(referenced)@.contains(c) {
                        assert(ch@.subrange(0, i as int).contains(c));
                    }
                    assert(m[k].children.contains(c)) by {
                        assert(m[k].children[i as int] == c);
                    }
                }
                return Err(
                    DomainError::InvalidOperation(
                        text_with_id("Child card ", c, " is referenced by more than one parent"),
                    ),
                );
            }
            let ghost pre = referenced@;
            referenced.push(c);
            proof {
                assert(ch@.subrange(0, i + 1) =~= ch@.subrange(0, i as int).push(c));
                assert(referenced@ =~= pre.push(c));
                assert forall|x: CardId| #[trigger] referenced@.contains(x) <==> old(
                    referenced,
                )@.contains(x) || ch@.subrange(0, i + 1).contains(x) by {
                    lemma_seq_contains_after_push(pre, c, x);
                    lemma_seq_contains_after_push(ch@.subrange(0, i as int), c, x);
                }
            }
            match self.get_card(c) {
                Ok(child) => {
                    if child.parent_id() != Some(CardId(k)) {
                        return Err(
                            DomainError::InvalidOperation(
                                text_with_ids(
                                    "Child ",
                                    c,
                                    " does not point back to parent ",
                                    CardId(k),
                                    "",
                                ),
                            ),
                        );
                    }
                },
                Err(_) => {
                    return Err(
                        DomainError::InvalidOperation(
                            text_with_ids("Card ", CardId(k), " references missing child ", c, ""),
                        ),
                    );
                },
            }
            i = i + 1;
        }
        proof {
            assert(ch@.subrange(0, ch@.len() as int) =~= ch@);
        }
        Ok(())
    }

    /// Checks that the chain of parents from `k` ends at a workspace card without
    /// revisiting a card.
    fn check_parent_chain(&self, k: u128) -> (r: Result<(), DomainError>)
        requires
            self@.contains_key(k),
            self@.dom().finite(),
        ensures
            r is Ok ==> chain_ok(self@, k),
            r is Err ==> !acyclic(self@) || exists|x: u128|
                self@.contains_key(x) && !#[trigger] parent_ok(self@, x),
            r matches Err(e) ==> e is InvalidOperation,
            r matches Err(DomainError::InvalidOperation(msg)) ==> chain_fault_text(self@, k, msg@),
    {
        let ghost m = self@;
        let card = self.get_card(CardId(k)).unwrap();
        let mut current = card.parent_id();
        let mut seen: Vec<u128> = Vec::new();
        proof {
            reveal_with_fuel(anc, 2);
        }
        while current.is_some()
            invariant
                m == self@,
                m.contains_key(k),
                m.dom().finite(),
                seen@.no_duplicates(),
                forall|i: int|
                    0 <= i < seen@.len() ==> anc(m, k, (i + 1) as nat) == Some(#[trigger] seen@[i])
                        && m.contains_key(seen@[i]),
                match current {
                    Some(p) => anc(m, k, (seen@.len() + 1) as nat) == Some(key(p)) && (if seen@.len()
                        == 0 {
                        m[k].parent_id == Some(p)
                    } else {
                        m[seen@.last()].parent_id == Some(p)
                    }),
                    None => root_at(m, k, seen@.len() as nat),
                },
            decreases m.dom().len() - seen@.len(),
        {
            let p = current.unwrap();
            let n = seen.len();
            if contains_value(seen.as_slice(), p.0) {
                proof {
                    let i0 = choose|i: int| 0 <= i < seen@.len() && seen@[i] == key(p);
                    assert forall|r: spec_fn(u128) -> nat| !ranked_by(m, r) by {
                        if ranked_by(m, r) {
                            lemma_ranked_no_repeat(m, r, k, (i0 + 1) as nat, (n + 1) as nat);
                        }
                    }
                }
                return Err(
                    DomainError::InvalidOperation(
                        text_with_ids(
                            "Card ",
                            CardId(k),
                            " participates in a parent cycle involving ",
                            p,
                            "",
                        ),
                    ),
                );
            }
            match self.get_card(p) {
                Ok(pc) => {
                    let ghost old_seen = seen@;
                    seen.push(p.0);
                    current = pc.parent_id();
                    proof {
                        assert(seen@.last() == key(p));
                        assert forall|i: int, j: int|
                            0 <= i < seen@.len() && 0 <= j < seen@.len() && i != j implies seen@[i]
                            != seen@[j] by {
                            if i < old_seen.len() && j < old_seen.len() {
                                assert(old_seen[i] == seen@[i]);
                                assert(old_seen[j] == seen@[j]);
                            } else if i < old_seen.len() {
                                assert(old_seen[i] == seen@[i]);
                            } else if j < old_seen.len() {
                                assert(old_seen[j] == seen@[j]);
                            }
                        }
                        assert forall|i: int| 0 <= i < seen@.len() implies anc(
                            m,
                            k,
                            (i + 1) as nat,
                        ) == Some(#[trigger] seen@[i]) && m.contains_key(seen@[i]) by {
                            if i < old_seen.len() {
                                assert(old_seen[i] == seen@[i]);
                            }
                        }
                        lemma_anc_step(m, k, (n + 1) as nat);
                        lemma_distinct_within(seen@, m.dom());
                    }
                },
                Err(_) => {
                    proof {
                        if n == 0 {
                            assert(!parent_ok(m, k));
                        } else {
                            assert(m.contains_key(seen@.last()));
                            assert(!parent_ok(m, seen@.last()));
                        }
                    }
                    return Err(
                        DomainError::InvalidOperation(
                            text_with_ids("Card ", CardId(k), " references missing ancestor ", p, ""),
                        ),
                    );
                },
            }
        }
        Ok(())
    }
}


/// Every record is consistent and no card is its own ancestor: all that makes a
/// registry well formed but the number of workspace cards.
pub open spec fn records_ok(m: Map<u128, CardModel>) -> bool {
    &&& m.dom().finite()
    &&& forall|k: u128| m.contains_key(k) ==> #[trigger] card_ok(m, k)
    &&& acyclic(m)
}

/// The number of workspace cards.
pub open spec fn root_count(m: Map<u128, CardModel>) -> nat {
    m.dom().filter(|k: u128| is_root(m, k)).len()
}

/// The text of the error for a registry without exactly one workspace card.
pub open spec fn exactly_one_text(n: nat) -> Seq<char> {
    "Registry must contain exactly one workspace card, found "@ + decimal(n)
}

/// A text that the check of `m` may report: the text of a fault of some stored
/// card, or, when every record is sound, the count of workspace cards. Which
/// faulty card is reported first follows the store's order.
pub open spec fn validation_fault_text(m: Map<u128, CardModel>, t: Seq<char>) -> bool {
    ||| exists|k: u128| #[trigger] record_fault_text(m, k, t)
    ||| records_ok(m) && t == exactly_one_text(root_count(m))
}

impl CardRegistry {
    /// Checks the whole registry: each record, each chain of parents, then that
    /// exactly one card is a workspace card and that it alone is nobody's child.
    pub fn validate(&self) -> (r: Result<(), DomainError>)
        ensures
            r is Ok <==> well_formed(self@),
            r matches Err(e) ==> e is InvalidOperation,
            records_ok(self@) && !single_root(self@) ==> (r matches Err(
                DomainError::InvalidOperation(msg),
            ) && msg@ == exactly_one_text(root_count(self@))),
            r matches Err(DomainError::InvalidOperation(msg)) ==> validation_fault_text(
                self@,
                msg@,
            ),
    {
        let ghost m = self@;
        let keys = self.key_list();
        proof {
            assert(m.dom() =~= keys@.to_set());
        }
        let mut referenced: Vec<CardId> = Vec::new();
        let mut i: usize = 0;
        while i < keys.len()
            invariant
                m == self@,
                m.dom().finite(),
                i <= keys@.len(),
                keys@.no_duplicates(),
                forall|k: u128| m.contains_key(k) <==> keys@.contains(k),
                forall|j: int|
                    0 <= j < i ==> card_ok(m, #[trigger] keys@[j]) && chain_ok(m, keys@[j]),
                forall|x: CardId|
                    #[trigger] referenced@.contains(x) <==> exists|j: int|
                        0 <= j < i && #[trigger] m[keys@[j]].children.contains(x),
            decreases keys@.len() - i,
        {
            let k = keys[i];
            assert(keys@.contains(keys@[i as int]));
            let card = self.store.get(&k).unwrap();
            let ghost old_ref = referenced@;
            if let Err(e) = check_card_key_and_title(k, card) {
                proof {
                    assert(!card_ok(m, k));
                    if let DomainError::InvalidOperation(msg) = &e {
                        assert(record_fault_text(m, k, msg@));
                    }
                }
                return Err(e);
            }
            if let Err(e) = check_note_pages(card) {
                proof {
                    assert(!card_ok(m, k));
                    if let DomainError::InvalidOperation(msg) = &e {
                        assert(record_fault_text(m, k, msg@));
                    }
                }
                return Err(e);
            }
            if let Err(e) = self.check_parent_reference(k, card) {
                proof {
                    assert(!card_ok(m, k));
                    if let DomainError::InvalidOperation(msg) = &e {
                        assert(record_fault_text(m, k, msg@));
                    }
                }
                return Err(e);
            }
            if let Err(e) = self.check_child_references(k, card, &mut referenced) {
                proof {
                    if children_ok(m, k) {
                        let x = choose|x: CardId|
                            #[trigger] old_ref.contains(x) && m[k].children.contains(x);
                        let j = choose|j: int|
                            0 <= j < i && #[trigger] m[keys@[j]].children.contains(x);
                        let kj = keys@[j];
                        assert(kj != k);
                        if card_ok(m, kj) {
                            let a = choose|a: int|
                                0 <= a < m[kj].children.len() && m[kj].children[a] == x;
                            let b = choose|b: int|
                                0 <= b < m[k].children.len() && m[k].children[b] == x;
                            assert(m[key(m[kj].children[a])].parent_id == Some(CardId(kj)));
                            assert(m[key(m[k].children[b])].parent_id == Some(CardId(k)));
                        }
                        assert(!card_ok(m, kj));
                    } else {
                        assert(!card_ok(m, k));
                    }
                    if let DomainError::InvalidOperation(msg) = &e {
                        if !child_fault_text(m, k, msg@) {
                            let x = choose|x: CardId|
                                #[trigger] old_ref.contains(x) && m[k].children.contains(x) && msg@
                                    == "Child card "@ + ulid_text(x.0)
                                    + " is referenced by more than one parent"@;
                            let j = choose|j: int|
                                0 <= j < i && #[trigger] m[keys@[j]].children.contains(x);
                            let kj = keys@[j];
                            assert(kj != k);
                            assert(m.contains_key(kj));
                            assert(m[kj].children.contains(x) && m[k].children.contains(x));
                        }
                        assert(record_fault_text(m, k, msg@));
                    }
                }
                return Err(e);
            }
            if let Err(e) = self.check_parent_chain(k) {
                proof {
                    if let DomainError::InvalidOperation(msg) = &e {
                        assert(record_fault_text(m, k, msg@));
                    }
                    if acyclic(m) {
                        let x = choose|x: u128| m.contains_key(x) && !#[trigger] parent_ok(m, x);
                        assert(!card_ok(m, x));
                    }
                }
                return Err(e);
            }
            proof {
                assert forall|x: CardId|
                    #[trigger] referenced@.contains(x) <==> exists|j: int|
                        0 <= j < i + 1 && #[trigger] m[keys@[j]].children.contains(x) by {
                    if referenced@.contains(x) && !old_ref.contains(x) {
                        assert(m[keys@[i as int]].children.contains(x));
                    }
                    if exists|j: int| 0 <= j < i + 1 && #[trigger] m[keys@[j]].children.contains(x) {
                        let j = choose|j: int|
                            0 <= j < i + 1 && #[trigger] m[keys@[j]].children.contains(x);
                        if j < i {
                            assert(old_ref.contains(x));
                        }
                    }
                }
            }
            i = i + 1;
        }
        proof {
            assert forall|k: u128| m.contains_key(k) implies #[trigger] chain_ok(m, k) by {
                assert(keys@.contains(k));
                let j = choose|j: int| 0 <= j < keys@.len() && keys@[j] == k;
                assert(card_ok(m, keys@[j]));
            }
            lemma_chains_give_ranking(m);
            assert forall|k: u128| m.contains_key(k) implies #[trigger] card_ok(m, k) by {
                assert(keys@.contains(k));
                let j = choose|j: int| 0 <= j < keys@.len() && keys@[j] == k;
                assert(card_ok(m, keys@[j]));
            }
            assert(records_ok(m));
        }
        self.check_workspace_shape(&keys, &referenced)
    }

    /// Checks that exactly one card has no parent, that it is nobody's child,
    /// and that every other card is somebody's child.
    fn check_workspace_shape(&self, keys: &Vec<u128>, referenced: &Vec<CardId>) -> (r: Result<
        (),
        DomainError,
    >)
        requires
            records_ok(self@),
            keys@.no_duplicates(),
            forall|k: u128| self@.contains_key(k) <==> keys@.contains(k),
            forall|x: CardId|
                #[trigger] referenced@.contains(x) <==> exists|k: u128|
                    self@.contains_key(k) && #[trigger] self@[k].children.contains(x),
        ensures
            r is Ok <==> single_root(self@),
            r is Err ==> (r matches Err(DomainError::InvalidOperation(msg)) && msg@
                == exactly_one_text(root_count(self@))),
    {
        let ghost m = self@;
        let mut roots: Vec<u128> = Vec::new();
        let mut i: usize = 0;
        while i < keys.len()
            invariant
                m == self@,
                records_ok(m),
                i <= keys@.len(),
                keys@.no_duplicates(),
                forall|k: u128| m.contains_key(k) <==> keys@.contains(k),
                forall|x: CardId|
                    #[trigger] referenced@.contains(x) <==> exists|k: u128|
                        m.contains_key(k) && #[trigger] m[k].children.contains(x),
                roots@.no_duplicates(),
                forall|x: u128|
                    #[trigger] roots@.contains(x) <==> keys@.subrange(0, i as int).contains(x)
                        && is_root(m, x),
            decreases keys@.len() - i,
        {
            let k = keys[i];
            assert(keys@.contains(keys@[i as int]));
            let card = self.store.get(&k).unwrap();
            assert(card_ok(m, k));
            match card.parent_id() {
                None => {
                    if contains_value(referenced.as_slice(), CardId(k)) {
                        proof {
                            let k2 = choose|k2: u128|
                                m.contains_key(k2) && #[trigger] m[k2].children.contains(CardId(k));
                            assert(card_ok(m, k2));
                            let a = choose|a: int|
                                0 <= a < m[k2].children.len() && m[k2].children[a] == CardId(k);
                            assert(m[key(m[k2].children[a])].parent_id == Some(CardId(k2)));
                        }
                        return Err(
                            DomainError::InvalidOperation(
                                text_with_id(
                                    "Workspace card ",
                                    CardId(k),
                                    " must not be referenced as a child",
                                ),
                            ),
                        );
                    }
                    proof {
                        assert(!keys@.subrange(0, i as int).contains(k)) by {
                            if keys@.subrange(0, i as int).contains(k) {
                                let a = choose|a: int|
                                    0 <= a < i && #[trigger] keys@.subrange(0, i as int)[a] == k;
                                assert(keys@[a] == keys@[i as int]);
                            }
                        }
                    }
                    let ghost old_roots = roots@;
                    roots.push(k);
                    proof {
                        assert(keys@.subrange(0, i + 1) =~= keys@.subrange(0, i as int).push(k));
                        assert forall|x: u128|
                            #[trigger] roots@.contains(x) <==> keys@.subrange(0, i + 1).contains(x)
                                && is_root(m, x) by {
                            lemma_seq_contains_after_push(old_roots, k, x);
                            lemma_seq_contains_after_push(keys@.subrange(0, i as int), k, x);
                        }
                        assert forall|a: int, b: int|
                            0 <= a < roots@.len() && 0 <= b < roots@.len() && a != b implies roots@[a]
                            != roots@[b] by {
                            if a < old_roots.len() && b < old_roots.len() {
                                assert(old_roots[a] == roots@[a]);
                                assert(old_roots[b] == roots@[b]);
                            } else if a < old_roots.len() {
                                assert(old_roots[a] == roots@[a]);
                                assert(old_roots.contains(roots@[a]));
                            } else if b < old_roots.len() {
                                assert(old_roots[b] == roots@[b]);
                                assert(old_roots.contains(roots@[b]));
                            }
                        }
                    }
                },
                Some(p) => {
                    if !contains_value(referenced.as_slice(), CardId(k)) {
                        proof {
                            assert(parent_ok(m, k));
                            assert(m[key(p)].children.contains(CardId(k)));
                        }
                        return Err(
                            DomainError::InvalidOperation(
                                text_with_id(
                                    "Non-workspace card ",
                                    CardId(k),
                                    " is not referenced by its parent",
                                ),
                            ),
                        );
                    }
                    proof {
                        assert(keys@.subrange(0, i + 1) =~= keys@.subrange(0, i as int).push(k));
                        assert forall|x: u128|
                            #[trigger] roots@.contains(x) <==> keys@.subrange(0, i + 1).contains(x)
                                && is_root(m, x) by {
                            lemma_seq_contains_after_push(keys@.subrange(0, i as int), k, x);
                        }
                    }
                },
            }
            i = i + 1;
        }
        proof {
            assert(keys@.subrange(0, keys@.len() as int) =~= keys@);
            assert(roots@.to_set() =~= m.dom().filter(|k: u128| is_root(m, k)));
            roots@.unique_seq_to_set();
            if roots@.len() == 1 {
                let r0 = roots@[0];
                assert(roots@.contains(r0));
                assert forall|k2: u128| #[trigger] is_root(m, k2) implies k2 == r0 by {
                    assert(roots@.contains(k2));
                }
                assert(single_root(m));
            }
            if single_root(m) {
                let k0 = choose|k: u128|
                    is_root(m, k) && forall|k2: u128| #[trigger] is_root(m, k2) ==> k2 == k;
                assert(roots@.contains(k0));
                if roots@.len() >= 2 {
                    assert(roots@.contains(roots@[0]));
                    assert(roots@.contains(roots@[1]));
                }
            }
        }
        if roots.len() != 1 {
            let mut msg = String::from_str("Registry must contain exactly one workspace card, found ");
            let n = usize_text(roots.len());
            msg.append(n.as_str());
            return Err(DomainError::InvalidOperation(msg));
        }
        Ok(())
    }
}

} // verus!
