//! The card registry: every card of a workspace, keyed by identifier.

use crate::card::{Card, CardModel};
use crate::registry::model::{is_root, key, single_root, stored_under_own_ids, the_root};
use crate::error::DomainError;
use crate::ids::CardId;
use std::collections::HashMap;
use vstd::prelude::*;
use vstd::std_specs::iter::IteratorSpec;
use vstd::string::*;

pub mod model;
pub mod validation;
pub mod mutations;
pub mod moves;
pub mod laws;

verus! {

broadcast use vstd::std_specs::hash::group_hash_axioms;

/// What deleting a card does with the card's children.
#[derive(Clone, Copy, Debug, PartialEq, Eq, Structural)]
pub enum DeleteStrategy {
    /// Refuse to delete a card that has children.
    Reject,
    /// Delete the card and everything below it.
    CascadeDelete,
    /// Delete the card and move its children to its parent.
    ReparentToGrandparent,
}

/// A registry that holds nothing but its workspace card, titled "My Workspace".
pub open spec fn initial_registry(id: CardId) -> Map<u128, CardModel> {
    map![key(id) => CardModel {
        id,
        title: "My Workspace"@,
        description: None,
        parent_id: None,
        children: Seq::empty(),
        notes: Seq::empty(),
        due_date: None,
        bucket_id: None,
        buckets: Seq::empty(),
    }]
}

/// The central state container for all cards in a workspace.
#[derive(Debug, Clone, PartialEq, Eq)]
pub struct CardRegistry {
    pub(crate) store: HashMap<u128, Card>,
}

/// The abstract registry: each card's model under the value of its identifier.
pub open spec fn models(store: Map<u128, Card>) -> Map<u128, CardModel> {
    store.map_values(|c: Card| c@)
}

impl View for CardRegistry {
    type V = Map<u128, CardModel>;

    closed spec fn view(&self) -> Map<u128, CardModel> {
        models(self.store@)
    }
}

impl Default for CardRegistry {
    /// A registry holding a new workspace card, as `new` makes it.
    fn default() -> (r: Self)
        ensures
            exists|id: CardId| r@ == #[trigger] initial_registry(id),
    {
        CardRegistry::new()
    }
}

impl CardRegistry {
    /// The keys of the store, each once.
    fn key_list(&self) -> (r: Vec<u128>)
        ensures
            r@.no_duplicates(),
            forall|k: u128| self@.contains_key(k) <==> r@.contains(k),
    {
        let mut r: Vec<u128> = Vec::new();
        let ghost keys_seq = vstd::std_specs::hash::spec_keys_iter(&self.store).remaining();
        proof {
            vstd::std_specs::hash::axiom_spec_keys_iter(&self.store);
        }
        for k in it: self.store.keys()
            invariant
                it.seq() == keys_seq,
                r@ == keys_seq.unref().take(it.index()),
        {
            r.push(*k);
            assert(r@ =~= keys_seq.unref().take(it.index() + 1));
        }
        proof {
            assert(r@ =~= keys_seq.unref());
            assert forall|k: u128| self@.contains_key(k) <==> r@.contains(k) by {
                assert(self.store@.dom().contains(k) <==> keys_seq.unref().to_set().contains(k));
            }
            assert forall|i: int, j: int| 0 <= i < r@.len() && 0 <= j < r@.len() && i != j implies r@[i] != r@[j] by {
                assert(keys_seq[i] != keys_seq[j]);
            }
        }
        r
    }

    /// Creates a registry holding one workspace card titled "My Workspace" under
    /// the given identifier.
    pub fn new_with_workspace_id(id: CardId) -> (r: CardRegistry)
        ensures
            r@ == initial_registry(id),
    {
        proof {
            reveal_strlit("My Workspace");
        }
        let title = String::from_str("My Workspace");
        let mut store: HashMap<u128, Card> = HashMap::new();
        match Card::new_with_id(id, title, None, None) {
            Ok(card) => {
                store.insert(id.0, card);
            },
            Err(_) => {
                assert(false);
            },
        }
        let r = CardRegistry { store };
        assert(r@ =~= initial_registry(id));
        r
    }

    /// Creates a registry holding one workspace card titled "My Workspace", with a
    /// freshly generated identifier.
    pub fn new() -> (r: CardRegistry)
        ensures
            exists|id: CardId| r@ == #[trigger] initial_registry(id),
    {
        let id = CardId::new();
        CardRegistry::new_with_workspace_id(id)
    }

    /// The card stored under `id`, or `CardNotFound`.
    pub fn get_card(&self, id: CardId) -> (r: Result<&Card, DomainError>)
        ensures
            match r {
                Ok(c) => self@.contains_key(key(id)) && c@ == self@[key(id)],
                Err(e) => !self@.contains_key(key(id)) && e == DomainError::CardNotFound(id),
            },
    {
        match self.store.get(&id.0) {
            Some(c) => Ok(c),
            None => Err(DomainError::CardNotFound(id)),
        }
    }

    /// The workspace card: the one card without parent.
    pub fn workspace_card(&self) -> (r: Result<&Card, DomainError>)
        ensures
            match r {
                Ok(c) => single_root(self@) && c@ == self@[the_root(self@)],
                Err(e) => !single_root(self@) && e is InvalidOperation,
            },
            r is Err ==> ((forall|k: u128| !is_root(self@, k)) ==> (r matches Err(
                DomainError::InvalidOperation(m),
            ) && m@ == missing_workspace_text())),
            r is Err ==> ((exists|k: u128| is_root(self@, k)) ==> (r matches Err(
                DomainError::InvalidOperation(m),
            ) && m@ == multiple_workspaces_text())),
            r is Err ==> (r matches Err(DomainError::InvalidOperation(m)) && m@
                == workspace_fault_text(self@)),
    {
        let keys = self.key_list();
        let mut found: Option<u128> = None;
        let mut i: usize = 0;
        while i < keys.len()
            invariant
                i <= keys@.len(),
                keys@.no_duplicates(),
                forall|k: u128| self@.contains_key(k) <==> keys@.contains(k),
                match found {
                    Some(f) => is_root(self@, f) && keys@.subrange(0, i as int).contains(f)
                        && forall|j: int|
                        0 <= j < i && #[trigger] keys@[j] != f ==> !is_root(self@, keys@[j]),
                    None => forall|j: int| 0 <= j < i ==> !is_root(self@, #[trigger] keys@[j]),
                },
            decreases keys@.len() - i,
        {
            let k = keys[i];
            assert(keys@.contains(keys@[i as int]));
            let c = self.store.get(&k).unwrap();
            if c.parent_id().is_none() {
                match found {
                    Some(f) => {
                        proof {
                            let jf = choose|j: int| 0 <= j < i && keys@.subrange(0, i as int)[j] == f;
                            assert(keys@[jf] == f);
                            assert(is_root(self@, k));
                            assert(f != k);
                        }
                        return Err(
                            DomainError::InvalidOperation(
                                String::from_str("Registry contains multiple workspace cards"),
                            ),
                        );
                    },
                    None => {
                        found = Some(k);
                    },
                }
            }
            proof {
                if found is Some {
                    assert(keys@.subrange(0, i + 1)[i as int] == keys@[i as int]);
                    let f = found->0;
                    if f != k {
                        let jf = choose|j: int| 0 <= j < i && keys@.subrange(0, i as int)[j] == f;
                        assert(keys@.subrange(0, i + 1)[jf] == f);
                    }
                }
            }
            i = i + 1;
        }
        match found {
            Some(f) => {
                proof {
                    assert forall|k2: u128| is_root(self@, k2) implies k2 == f by {
                        assert(keys@.contains(k2));
                        let j = choose|j: int| 0 <= j < keys@.len() && keys@[j] == k2;
                    }
                }
                let c = self.store.get(&f).unwrap();
                proof {
                    assert(is_root(self@, the_root(self@)));
                }
                Ok(c)
            },
            None => {
                proof {
                    assert forall|k2: u128| !is_root(self@, k2) by {
                        if self@.contains_key(k2) {
                            assert(keys@.contains(k2));
                            let j = choose|j: int| 0 <= j < keys@.len() && keys@[j] == k2;
                        }
                    }
                }
                Err(
                    DomainError::InvalidOperation(
                        String::from_str("Workspace card is missing from the registry"),
                    ),
                )
            },
        }
    }

    /// The identifier of the workspace card.
    pub fn workspace_card_id(&self) -> (r: Result<CardId, DomainError>)
        ensures
            match r {
                Ok(id) => single_root(self@) && self@[the_root(self@)].id == id,
                Err(e) => !single_root(self@) && (e matches DomainError::InvalidOperation(m)
                    && m@ == workspace_fault_text(self@)),
            },
    {
        let c = self.workspace_card()?;
        Ok(c.id())
    }
}

/// `HashMap::get_mut`: a mutable reference to the value under `k`, if any; the
/// map afterwards holds, under `k`, what the reference was left holding.
#[verifier::external_body]
fn store_get_mut<'a>(store: &'a mut HashMap<u128, Card>, k: u128) -> (r: Option<&'a mut Card>)
    ensures
        match r {
            Some(c) => old(store)@.contains_key(k) && *c == old(store)@[k]
                && final(store)@ == old(store)@.insert(k, *final(c)),
            None => !old(store)@.contains_key(k) && final(store)@ == old(store)@,
        },
{
    store.get_mut(&k)
}

/// The registry that holds `cards`, each under its own identifier; a later card
/// replaces an earlier one of the same identifier.
pub open spec fn insert_all(cards: Seq<CardModel>) -> Map<u128, CardModel>
    decreases cards.len(),
{
    if cards.len() == 0 {
        Map::empty()
    } else {
        insert_all(cards.drop_last()).insert(key(cards.last().id), cards.last())
    }
}

/// The registry that holds each card under its given key; a later entry
/// replaces an earlier one of the same key.
pub open spec fn insert_all_keyed(entries: Seq<(u128, CardModel)>) -> Map<u128, CardModel>
    decreases entries.len(),
{
    if entries.len() == 0 {
        Map::empty()
    } else {
        insert_all_keyed(entries.drop_last()).insert(entries.last().0, entries.last().1)
    }
}

/// Whether `i` is the first position of `children` whose card is not stored.
pub open spec fn first_missing_child(m: Map<u128, CardModel>, children: Seq<CardId>, i: int) -> bool {
    &&& 0 <= i < children.len()
    &&& !m.contains_key(key(children[i]))
    &&& forall|j: int| 0 <= j < i ==> m.contains_key(key(#[trigger] children[j]))
}

impl CardRegistry {
    /// The abstract registry is the models of the stored cards.
    pub(crate) proof fn lemma_view(&self)
        ensures
            self@ == models(self.store@),
            self@.dom() == self.store@.dom(),
    {
    }

    /// Builds a registry from stored cards, as they are; nothing is checked (call
    /// `validate` for that).
    pub fn from_cards(cards: Vec<Card>) -> (r: CardRegistry)
        ensures
            r@ == insert_all(cards@.map_values(|c: Card| c@)),
    {
        let ghost all = cards@.map_values(|c: Card| c@);
        let ghost cs = cards@;
        let mut store: HashMap<u128, Card> = HashMap::new();
        proof {
            vstd::std_specs::vec::axiom_spec_into_iter(cards);
            assert(models(store@) =~= insert_all(all.take(0)));
        }
        for c in it: cards
            invariant
                it.seq() == cs,
                all == cs.map_values(|c: Card| c@),
                models(store@) == insert_all(all.take(it.index())),
        {
            let ghost before = store@;
            let id = c.id();
            store.insert(id.0, c);
            proof {
                assert(all.take(it.index() + 1).drop_last() =~= all.take(it.index()));
                assert(models(store@) =~= models(before).insert(key(id), all[it.index()]));
            }
        }
        proof {
            assert(all.take(all.len() as int) =~= all);
        }
        CardRegistry { store }
    }

    /// Builds a registry from cards stored under given keys, as they are; a
    /// later entry replaces an earlier one of the same key, and nothing is
    /// checked (call `validate` for that).
    pub fn from_keyed_cards(entries: Vec<(u128, Card)>) -> (r: CardRegistry)
        ensures
            r@ == insert_all_keyed(entries@.map_values(|e: (u128, Card)| (e.0, e.1@))),
    {
        let ghost all = entries@.map_values(|e: (u128, Card)| (e.0, e.1@));
        let ghost es = entries@;
        let mut store: HashMap<u128, Card> = HashMap::new();
        proof {
            vstd::std_specs::vec::axiom_spec_into_iter(entries);
            assert(models(store@) =~= insert_all_keyed(all.take(0)));
        }
        for e in it: entries
            invariant
                it.seq() == es,
                all == es.map_values(|e: (u128, Card)| (e.0, e.1@)),
                models(store@) == insert_all_keyed(all.take(it.index())),
        {
            let ghost before = store@;
            let (k, c) = e;
            let ghost cm = c@;
            store.insert(k, c);
            proof {
                assert(all.take(it.index() + 1).drop_last() =~= all.take(it.index()));
                assert(all[it.index()] == (k, cm));
                assert(models(store@) =~= models(before).insert(k, cm));
            }
        }
        proof {
            assert(all.take(all.len() as int) =~= all);
        }
        CardRegistry { store }
    }

    /// The immediate children of a card, in order.
    pub fn get_children(&self, parent_id: CardId) -> (r: Result<Vec<&Card>, DomainError>)
        ensures
            !self@.contains_key(key(parent_id)) ==> r == Err::<Vec<&Card>, DomainError>(
                DomainError::CardNotFound(parent_id),
            ),
            self@.contains_key(key(parent_id)) && (forall|i: int|
                0 <= i < self@[key(parent_id)].children.len() ==> self@.contains_key(
                    key(#[trigger] self@[key(parent_id)].children[i]),
                )) ==> (r matches Ok(v) && v@.len() == self@[key(parent_id)].children.len()
                && forall|i: int|
                0 <= i < v@.len() ==> (#[trigger] v@[i])@ == self@[key(
                    self@[key(parent_id)].children[i],
                )]),
            forall|i: int|
                self@.contains_key(key(parent_id)) && #[trigger] first_missing_child(
                    self@,
                    self@[key(parent_id)].children,
                    i,
                ) ==> r == Err::<Vec<&Card>, DomainError>(
                    DomainError::CardNotFound(self@[key(parent_id)].children[i]),
                ),
            stored_under_own_ids(self@) ==> (r matches Ok(v) ==> forall|i: int|
                0 <= i < v@.len() ==> (#[trigger] v@[i])@.id == self@[key(parent_id)].children[i]),
    {
        let parent = self.get_card(parent_id)?;
        let ids = parent.children_ids();
        let mut children: Vec<&Card> = Vec::new();
        let mut i: usize = 0;
        while i < ids.len()
            invariant
                self@.contains_key(key(parent_id)),
                ids@ == self@[key(parent_id)].children,
                i <= ids@.len(),
                children@.len() == i,
                forall|j: int| 0 <= j < i ==> self@.contains_key(key(#[trigger] ids@[j])),
                forall|j: int| 0 <= j < i ==> (#[trigger] children@[j])@ == self@[key(ids@[j])],
            decreases ids@.len() - i,
        {
            let c = match self.get_card(ids[i]) {
                Ok(c) => c,
                Err(e) => {
                    proof {
                        assert(first_missing_child(self@, ids@, i as int));
                        assert forall|j: int| #[trigger] first_missing_child(self@, ids@, j) implies j
                            == i by {
                            if j < i {
                                assert(self@.contains_key(key(ids@[j])));
                            } else if j > i {
                                assert(self@.contains_key(key(ids@[i as int])));
                            }
                        }
                    }
                    return Err(e);
                },
            };
            children.push(c);
            i = i + 1;
        }
        proof {
            if stored_under_own_ids(self@) {
                assert forall|j: int| 0 <= j < children@.len() implies (#[trigger] children@[j])@.id
                    == ids@[j] by {
                    assert(self@.contains_key(key(ids@[j])));
                    assert(key(self@[key(ids@[j])].id) == key(ids@[j]));
                }
            }
        }
        Ok(children)
    }

    /// The number of immediate children of the workspace card, or 0 when there is
    /// no single workspace card.
    pub fn workspace_child_count(&self) -> (r: usize)
        ensures
            r == if single_root(self@) {
                self@[the_root(self@)].children.len() as int
            } else {
                0
            },
    {
        match self.workspace_card() {
            Ok(w) => w.children_ids().len(),
            Err(_) => 0,
        }
    }

    /// Every stored card, each once, in the store's order.
    pub fn cards(&self) -> (r: Vec<&Card>)
        ensures
            exists|ks: Seq<u128>|
                #![trigger ks.len()]
                ks.len() == r@.len() && ks.no_duplicates() && (forall|k: u128|
                    self@.contains_key(k) <==> ks.contains(k)) && forall|i: int|
                    0 <= i < r@.len() ==> (#[trigger] r@[i])@ == self@[ks[i]],
    {
        let keys = self.key_list();
        let mut r: Vec<&Card> = Vec::new();
        let mut i: usize = 0;
        while i < keys.len()
            invariant
                i <= keys@.len(),
                r@.len() == i,
                forall|k: u128| self@.contains_key(k) <==> keys@.contains(k),
                forall|j: int| 0 <= j < i ==> (#[trigger] r@[j])@ == self@[keys@[j]],
            decreases keys@.len() - i,
        {
            assert(keys@.contains(keys@[i as int]));
            let c = self.store.get(&keys[i]).unwrap();
            r.push(c);
            i = i + 1;
        }
        assert(keys@.len() == r@.len());
        r
    }

    /// A mutable reference to the card stored under `id`, or `CardNotFound`. What
    /// the caller leaves in the card is what the registry holds afterwards.
    pub fn get_card_mut(&mut self, id: CardId) -> (r: Result<&mut Card, DomainError>)
        ensures
            match r {
                Ok(c) => old(self)@.contains_key(key(id)) && c@ == old(self)@[key(id)]
                    && final(self)@ == old(self)@.insert(key(id), final(c)@),
                Err(e) => !old(self)@.contains_key(key(id)) && e == DomainError::CardNotFound(id)
                    && final(self)@ == old(self)@,
            },
    {
        match store_get_mut(&mut self.store, id.0) {
            Some(c) => Ok(c),
            None => Err(DomainError::CardNotFound(id)),
        }
    }
}

/// The text of the error for a registry without exactly one workspace card.
pub open spec fn workspace_fault_text(m: Map<u128, CardModel>) -> Seq<char> {
    if exists|k: u128| is_root(m, k) {
        multiple_workspaces_text()
    } else {
        missing_workspace_text()
    }
}

/// The text of the error for a registry without workspace card.
pub open spec fn missing_workspace_text() -> Seq<char> {
    "Workspace card is missing from the registry"@
}

/// The text of the error for a registry with several workspace cards.
pub open spec fn multiple_workspaces_text() -> Seq<char> {
    "Registry contains multiple workspace cards"@
}

} // verus!
