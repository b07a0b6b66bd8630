//! The abstract registry and what makes it well formed: every record consistent,
//! parent and child references symmetric, no cycle, one workspace card.

use crate::card::CardModel;
use crate::ids::CardId;
use crate::note::NoteModel;
use crate::text::is_blank;
use vstd::prelude::*;

verus! {

/// The key under which a card identifier is stored.
pub open spec fn key(id: CardId) -> u128 {
    id.0
}

/// The note pages of a card are sound: titles not blank, identifiers distinct.
pub open spec fn notes_ok(notes: Seq<NoteModel>) -> bool {
    &&& forall|i: int| 0 <= i < notes.len() ==> !is_blank(#[trigger] notes[i].title)
    &&& forall|i: int, j: int|
        0 <= i < j < notes.len() ==> (#[trigger] notes[i]).id != (#[trigger] notes[j]).id
}

/// The card under `k` names an existing parent that lists it as a child.
pub open spec fn parent_ok(m: Map<u128, CardModel>, k: u128) -> bool {
    match m[k].parent_id {
        Some(p) => m.contains_key(key(p)) && m[key(p)].children.contains(CardId(k)),
        None => true,
    }
}

/// The children of the card under `k` are other existing cards that name it as
/// their parent, each listed once.
pub open spec fn children_ok(m: Map<u128, CardModel>, k: u128) -> bool {
    let ch = m[k].children;
    &&& forall|i: int|
        0 <= i < ch.len() ==> #[trigger] ch[i] != CardId(k) && m.contains_key(key(ch[i]))
            && m[key(ch[i])].parent_id == Some(CardId(k))
    &&& forall|i: int, j: int| 0 <= i < j < ch.len() ==> #[trigger] ch[i] != #[trigger] ch[j]
}

/// Every card is stored under its own identifier.
pub open spec fn stored_under_own_ids(m: Map<u128, CardModel>) -> bool {
    forall|k: u128| #[trigger] m.contains_key(k) ==> key(m[k].id) == k
}

/// The record under `k` is consistent in itself and with its neighbours.
pub open spec fn card_ok(m: Map<u128, CardModel>, k: u128) -> bool {
    &&& key(m[k].id) == k
    &&& !is_blank(m[k].title)
    &&& notes_ok(m[k].notes)
    &&& parent_ok(m, k)
    &&& children_ok(m, k)
}

/// Every card's parent ranks strictly below it.
pub open spec fn ranked_by(m: Map<u128, CardModel>, r: spec_fn(u128) -> nat) -> bool {
    forall|k: u128|
        #![trigger m[k]]
        m.contains_key(k) && m[k].parent_id is Some ==> r(key(m[k].parent_id->0)) < r(k)
}

/// No card is its own ancestor: some ranking decreases towards the parents.
pub open spec fn acyclic(m: Map<u128, CardModel>) -> bool {
    exists|r: spec_fn(u128) -> nat| ranked_by(m, r)
}

/// The card under `k` exists and has no parent: it is a workspace card.
pub open spec fn is_root(m: Map<u128, CardModel>, k: u128) -> bool {
    m.contains_key(k) && m[k].parent_id is None
}

/// Exactly one card has no parent.
pub open spec fn single_root(m: Map<u128, CardModel>) -> bool {
    exists|k: u128| is_root(m, k) && forall|k2: u128| #[trigger] is_root(m, k2) ==> k2 == k
}

/// The workspace card's key, when there is exactly one.
pub open spec fn the_root(m: Map<u128, CardModel>) -> u128 {
    choose|k: u128| is_root(m, k)
}

/// The registry is well formed.
pub open spec fn well_formed(m: Map<u128, CardModel>) -> bool {
    &&& m.dom().finite()
    &&& forall|k: u128| m.contains_key(k) ==> #[trigger] card_ok(m, k)
    &&& acyclic(m)
    &&& single_root(m)
}

/// In a well-formed registry every card is stored under its own identifier.
pub proof fn lemma_well_formed_stored_under_own_ids(m: Map<u128, CardModel>)
    requires
        well_formed(m),
    ensures
        stored_under_own_ids(m),
{
    assert forall|k: u128| #[trigger] m.contains_key(k) implies key(m[k].id) == k by {
        assert(card_ok(m, k));
    }
}

/// The `n`-th ancestor of `k` (`k` itself for `n == 0`), following parent
/// references while they lead through stored cards.
pub open spec fn anc(m: Map<u128, CardModel>, k: u128, n: nat) -> Option<u128>
    decreases n,
{
    if n == 0 {
        Some(k)
    } else if m.contains_key(k) && m[k].parent_id is Some {
        anc(m, key(m[k].parent_id->0), (n - 1) as nat)
    } else {
        None
    }
}

/// Following parents from `k`, step `n` reaches a stored card without parent.
pub open spec fn root_at(m: Map<u128, CardModel>, k: u128, n: nat) -> bool {
    anc(m, k, n) matches Some(a) && is_root(m, a)
}

/// The chain of parents from `k` ends at a workspace card.
pub open spec fn chain_ok(m: Map<u128, CardModel>, k: u128) -> bool {
    exists|n: nat| root_at(m, k, n)
}

/// `d` is `a` or lies below it.
pub open spec fn is_descendant_or_self(m: Map<u128, CardModel>, d: u128, a: u128) -> bool {
    exists|n: nat| anc(m, d, n) == Some(a)
}

/// Step `n + 1` of the chain is the parent of step `n`.
pub proof fn lemma_anc_step(m: Map<u128, CardModel>, k: u128, n: nat)
    ensures
        anc(m, k, n + 1) == match anc(m, k, n) {
            Some(a) => if m.contains_key(a) && m[a].parent_id is Some {
                Some(key(m[a].parent_id->0))
            } else {
                None
            },
            None => None,
        },
    decreases n,
{
    reveal_with_fuel(anc, 2);
    if n > 0 {
        if m.contains_key(k) && m[k].parent_id is Some {
            lemma_anc_step(m, key(m[k].parent_id->0), (n - 1) as nat);
        }
    }
}

/// Once the chain has stopped, it stays stopped.
pub proof fn lemma_anc_none(m: Map<u128, CardModel>, k: u128, a: nat, b: nat)
    requires
        a <= b,
        anc(m, k, a) is None,
    ensures
        anc(m, k, b) is None,
    decreases b - a,
{
    if a < b {
        lemma_anc_step(m, k, a);
        lemma_anc_none(m, k, (a + 1) as nat, b);
    }
}

/// Walking `i + d` steps is walking `i` steps and then `d` more.
pub proof fn lemma_anc_add(m: Map<u128, CardModel>, k: u128, i: nat, d: nat)
    requires
        anc(m, k, i) is Some,
    ensures
        anc(m, k, i + d) == anc(m, anc(m, k, i)->0, d),
    decreases i,
{
    if i > 0 {
        lemma_anc_add(m, key(m[k].parent_id->0), (i - 1) as nat, d);
        assert((i - 1) as nat + d == (i + d - 1) as nat);
    }
}

/// Along the chain, ranks strictly decrease.
pub proof fn lemma_rank_decreases(m: Map<u128, CardModel>, r: spec_fn(u128) -> nat, x: u128, n: nat)
    requires
        ranked_by(m, r),
        m.contains_key(x),
        n >= 1,
        anc(m, x, n) is Some,
    ensures
        r(anc(m, x, n)->0) < r(x),
    decreases n,
{
    let p = key(m[x].parent_id->0);
    assert(m.contains_key(x) && m[x].parent_id is Some);
    assert(r(p) < r(x));
    if n > 1 {
        assert(anc(m, x, n) == anc(m, p, (n - 1) as nat));
        assert(m.contains_key(p));
        lemma_rank_decreases(m, r, p, (n - 1) as nat);
    }
}

/// The step at which the chain reaches a workspace card is unique.
pub proof fn lemma_root_at_unique(m: Map<u128, CardModel>, k: u128, a: nat, b: nat)
    requires
        root_at(m, k, a),
        root_at(m, k, b),
    ensures
        a == b,
{
    if a < b {
        lemma_anc_step(m, k, a);
        lemma_anc_none(m, k, a + 1, b);
    } else if b < a {
        lemma_anc_step(m, k, b);
        lemma_anc_none(m, k, b + 1, a);
    }
}

/// The number of steps from `k` to its workspace card.
pub open spec fn depth(m: Map<u128, CardModel>, k: u128) -> nat {
    choose|n: nat| root_at(m, k, n)
}

/// When every card's chain ends at a workspace card, the depth ranks the cards.
pub proof fn lemma_chains_give_ranking(m: Map<u128, CardModel>)
    requires
        forall|k: u128| m.contains_key(k) ==> #[trigger] chain_ok(m, k),
    ensures
        acyclic(m),
{
    let r = |k: u128| depth(m, k);
    assert forall|k: u128|
        #![trigger m[k]]
        m.contains_key(k) && m[k].parent_id is Some implies r(key(m[k].parent_id->0)) < r(k) by {
        let p = key(m[k].parent_id->0);
        assert(chain_ok(m, k));
        let n = depth(m, k);
        assert(root_at(m, k, n));
        assert(n >= 1);
        assert(anc(m, k, n) == anc(m, p, (n - 1) as nat));
        assert(root_at(m, p, (n - 1) as nat));
        if m.contains_key(p) {
            assert(chain_ok(m, p));
        }
        assert(chain_ok(m, p));
        let np = depth(m, p);
        assert(root_at(m, p, np));
        lemma_root_at_unique(m, p, np, (n - 1) as nat);
    }
    assert(ranked_by(m, r));
}

/// A ranking rules out a chain that visits a card twice.
pub proof fn lemma_ranked_no_repeat(
    m: Map<u128, CardModel>,
    r: spec_fn(u128) -> nat,
    k: u128,
    i: nat,
    j: nat,
)
    requires
        ranked_by(m, r),
        i < j,
        anc(m, k, i) is Some,
        m.contains_key(anc(m, k, i)->0),
        anc(m, k, j) is Some,
    ensures
        anc(m, k, i) != anc(m, k, j),
{
    let x = anc(m, k, i)->0;
    lemma_anc_add(m, k, i, (j - i) as nat);
    assert(anc(m, k, j) == anc(m, x, (j - i) as nat));
    lemma_rank_decreases(m, r, x, (j - i) as nat);
}

/// A sequence without repeats drawn from a finite set is no longer than the set.
pub proof fn lemma_distinct_within(s: Seq<u128>, d: Set<u128>)
    requires
        s.no_duplicates(),
        d.finite(),
        forall|i: int| 0 <= i < s.len() ==> d.contains(#[trigger] s[i]),
    ensures
        s.len() <= d.len(),
{
    s.unique_seq_to_set();
    assert(s.to_set().subset_of(d));
    vstd::set_lib::lemma_len_subset(s.to_set(), d);
}

/// Going up one step from a card that has a parent.
pub proof fn lemma_anc_parent(m: Map<u128, CardModel>, k: u128, n: nat)
    requires
        m.contains_key(k),
        m[k].parent_id is Some,
    ensures
        anc(m, k, n + 1) == anc(m, key(m[k].parent_id->0), n),
{
}

/// Where a ranking exists, every walk up the parents ends.
pub proof fn lemma_walk_ends(m: Map<u128, CardModel>, rk: spec_fn(u128) -> nat, k: u128)
    requires
        ranked_by(m, rk),
    ensures
        exists|n: nat| #[trigger] anc(m, k, n) is None,
    decreases rk(k),
{
    if m.contains_key(k) && m[k].parent_id is Some {
        let q = key(m[k].parent_id->0);
        assert(rk(q) < rk(k));
        lemma_walk_ends(m, rk, q);
        let n = choose|n: nat| #[trigger] anc(m, q, n) is None;
        lemma_anc_parent(m, k, n);
        assert(anc(m, k, n + 1) is None);
    } else {
        assert(anc(m, k, 1) is None);
    }
}

} // verus!
