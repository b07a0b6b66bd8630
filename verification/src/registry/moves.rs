//! Changes to the shape of the tree: moving a card under another parent.

use crate::error::DomainError;
use crate::ids::CardId;
use crate::card::CardModel;
use crate::ordering::remove_all;
use crate::registry::model::{
    anc, card_ok, is_descendant_or_self, is_root, key, lemma_anc_none, lemma_anc_step,
    lemma_anc_add, lemma_anc_parent, lemma_rank_decreases, lemma_walk_ends, ranked_by, single_root, the_root, well_formed, acyclic,
};
use crate::registry::laws::{
    lemma_acyclic_reparent_decidable, lemma_no_two_cycle, lemma_reparent_keeps_acyclic,
};
use crate::registry::DeleteStrategy;
use crate::ordering::{lemma_remove_all, lemma_remove_all_concat};
use crate::registry::{missing_workspace_text, multiple_workspaces_text, workspace_fault_text, CardRegistry};
use vstd::prelude::*;
use vstd::string::*;

verus! {

broadcast use vstd::std_specs::hash::group_hash_axioms;

/// Walking up the parents from `start`, `target` comes up.
pub open spec fn walk_meets(m: Map<u128, CardModel>, start: u128, target: u128) -> bool {
    exists|n: nat| anc(m, start, n) == Some(target)
}

/// Step `n` of the walk up from `start` is a key that no card is stored under.
pub open spec fn walk_missing_at(m: Map<u128, CardModel>, start: u128, n: nat) -> bool {
    anc(m, start, n) matches Some(a) && !m.contains_key(a)
}

/// The walk up from `start` either ends or comes to `target`.
pub open spec fn walk_stops(m: Map<u128, CardModel>, start: u128, target: u128) -> bool {
    exists|n: nat| anc(m, start, n) is None || anc(m, start, n) == Some(target)
}

/// What the search for a cycle gives: `CycleDetected` when `c` is met walking
/// up from `p`, `CardNotFound` for a missing card on the way, nothing otherwise.
pub open spec fn cycle_check_outcome(
    m: Map<u128, CardModel>,
    c: CardId,
    p: CardId,
    r: Result<(), DomainError>,
) -> bool {
    &&& walk_meets(m, key(p), key(c)) ==> r == Err::<(), DomainError>(DomainError::CycleDetected)
    &&& forall|n: nat|
        #[trigger] walk_missing_at(m, key(p), n) && !walk_meets(m, key(p), key(c)) ==> r == Err::<
            (),
            DomainError,
        >(DomainError::CardNotFound(CardId(anc(m, key(p), n)->0)))
    &&& r is Ok <==> !walk_meets(m, key(p), key(c)) && forall|n: nat|
        !#[trigger] walk_missing_at(m, key(p), n)
}

/// `m` with `c` appended to the children of `p`.
pub open spec fn adopted(m: Map<u128, CardModel>, p: CardId, c: CardId) -> Map<u128, CardModel> {
    m.insert(key(p), CardModel { children: m[key(p)].children.push(c), ..m[key(p)] })
}

/// `m` with `c` taken out of the children of `p`.
pub open spec fn released(m: Map<u128, CardModel>, p: CardId, c: CardId) -> Map<u128, CardModel> {
    m.insert(key(p), CardModel { children: remove_all(m[key(p)].children, c), ..m[key(p)] })
}

/// `m` with the parent of `c` set to `p`.
pub open spec fn reattached(m: Map<u128, CardModel>, c: CardId, p: CardId) -> Map<u128, CardModel> {
    m.insert(key(c), CardModel { parent_id: Some(p), ..m[key(c)] })
}

/// The text of the error for an attempt to move the workspace card.
pub open spec fn workspace_move_text() -> Seq<char> {
    "The workspace root cannot be reparented"@
}

/// Moving `c` under `p` can be decided: when it gets as far as walking up from
/// `p`, that walk ends or comes to `c`.
pub open spec fn reparent_decidable(m: Map<u128, CardModel>, c: CardId, p: CardId) -> bool {
    single_root(m) && c != m[the_root(m)].id && c != p ==> walk_stops(m, key(p), key(c))
}

/// What moving `c` under `p` does. Refused, with nothing changed: without a
/// single workspace card; for the workspace card itself; when `p` is `c` or
/// lies below it; when a card on the way up from `p`, or `c` itself, is
/// missing. Already under `p`: nothing changes. Otherwise `c` is appended to
/// `p`'s children, taken out of its old parent's children and given `p` as its
/// parent; a missing old parent stops this after the first step.
pub open spec fn reparent_outcome(
    m: Map<u128, CardModel>,
    c: CardId,
    p: CardId,
    r: Result<(), DomainError>,
    m2: Map<u128, CardModel>,
) -> bool {
    if !single_root(m) {
        (r matches Err(DomainError::InvalidOperation(t)) && t@ == workspace_fault_text(m)) && m2
            == m
    } else if c == m[the_root(m)].id {
        r matches Err(DomainError::InvalidOperation(msg)) && msg@ == workspace_move_text() && m2
            == m
    } else if c == p {
        r == Err::<(), DomainError>(DomainError::CycleDetected) && m2 == m
    } else if walk_meets(m, key(p), key(c)) || exists|n: nat| #[trigger]
        walk_missing_at(m, key(p), n) {
        cycle_check_outcome(m, c, p, r) && m2 == m
    } else if !m.contains_key(key(c)) {
        r == Err::<(), DomainError>(DomainError::CardNotFound(c)) && m2 == m
    } else if m[key(c)].parent_id == Some(p) {
        r is Ok && m2 == m
    } else {
        match m[key(c)].parent_id {
            None => r is Ok && m2 == reattached(adopted(m, p, c), c, p),
            Some(o) => if !adopted(m, p, c).contains_key(key(o)) {
                r == Err::<(), DomainError>(DomainError::CardNotFound(o)) && m2 == adopted(m, p, c)
            } else {
                r is Ok && m2 == reattached(released(adopted(m, p, c), o, c), c, p)
            },
        }
    }
}

/// Step value `a` of a walk is the card `target`, when one is given.
pub open spec fn meets(a: Option<u128>, target: Option<CardId>) -> bool {
    match target {
        Some(t) => a == Some(key(t)),
        None => false,
    }
}

/// The walk up from `start` either ends or comes to `target`, when one is given.
pub open spec fn walk_halts(m: Map<u128, CardModel>, start: u128, target: Option<CardId>) -> bool {
    exists|n: nat| anc(m, start, n) is None || meets(anc(m, start, n), target)
}

/// `n` is the first step at which the walk up from `k` has ended.
pub open spec fn first_end(m: Map<u128, CardModel>, k: u128, n: nat) -> bool {
    &&& n >= 1
    &&& anc(m, k, n) is None
    &&& anc(m, k, (n - 1) as nat) is Some
}

/// A walk that has ended by step `n` ended first at some step up to `n`.
proof fn lemma_first_end_exists(m: Map<u128, CardModel>, k: u128, n: nat) -> (j: nat)
    requires
        anc(m, k, n) is None,
    ensures
        j <= n,
        first_end(m, k, j),
    decreases n,
{
    if anc(m, k, (n - 1) as nat) is Some {
        n
    } else {
        lemma_first_end_exists(m, k, (n - 1) as nat)
    }
}

/// The first step at which a walk has ended is unique.
proof fn lemma_first_end_unique(m: Map<u128, CardModel>, k: u128, a: nat, b: nat)
    requires
        first_end(m, k, a),
        first_end(m, k, b),
    ensures
        a == b,
{
    if a < b {
        lemma_anc_none(m, k, a, (b - 1) as nat);
    } else if b < a {
        lemma_anc_none(m, k, b, (a - 1) as nat);
    }
}

/// When every walk up from a stored card ends, the step at which it ends ranks
/// the cards, so no card is its own ancestor.
pub proof fn lemma_walks_end_give_ranking(m: Map<u128, CardModel>)
    requires
        forall|k: u128| m.contains_key(k) ==> #[trigger] walk_ends(m, k),
    ensures
        acyclic(m),
{
    let r = |k: u128| choose|n: nat| first_end(m, k, n);
    assert forall|k: u128|
        #![trigger m[k]]
        m.contains_key(k) && m[k].parent_id is Some implies r(key(m[k].parent_id->0)) < r(k) by {
        let p = key(m[k].parent_id->0);
        assert(walk_ends(m, k));
        let n0 = choose|n: nat| #[trigger] anc(m, k, n) is None;
        let j = lemma_first_end_exists(m, k, n0);
        assert(first_end(m, k, r(k)));
        lemma_first_end_unique(m, k, j, r(k));
        lemma_anc_parent(m, k, (j - 1) as nat);
        lemma_anc_parent(m, k, (j - 2) as nat);
        assert(j >= 2);
        assert(first_end(m, p, (j - 1) as nat));
        assert(first_end(m, p, r(p)));
        lemma_first_end_unique(m, p, (j - 1) as nat, r(p));
    }
    assert(ranked_by(m, r));
}

/// Once the walk up from `start` comes back to a card it met before, every
/// later step repeats one of the steps before the second visit.
proof fn lemma_walk_repeats(m: Map<u128, CardModel>, start: u128, i: nat, j: nat, n: nat) -> (t: nat)
    requires
        i < j,
        anc(m, start, i) is Some,
        anc(m, start, i) == anc(m, start, j),
    ensures
        t < j,
        anc(m, start, n) == anc(m, start, t),
    decreases n,
{
    if n < j {
        n
    } else {
        let d = (n - j) as nat;
        lemma_anc_add(m, start, j, d);
        lemma_anc_add(m, start, i, d);
        assert(n == j + d);
        lemma_walk_repeats(m, start, i, j, i + d)
    }
}

/// A walk that meets one stored card more times than there are stored cards
/// comes back to a card it met before.
proof fn lemma_walk_revisits(m: Map<u128, CardModel>, start: u128, keys: Seq<u128>) -> (ij: (
    nat,
    nat,
))
    requires
        keys.no_duplicates(),
        forall|k: u128| m.contains_key(k) <==> keys.contains(k),
        forall|t: nat|
            t <= keys.len() ==> #[trigger] anc(m, start, t) is Some && m.contains_key(
                anc(m, start, t)->0,
            ),
    ensures
        ij.0 < ij.1 <= keys.len(),
        anc(m, start, ij.0) == anc(m, start, ij.1),
{
    broadcast use vstd::seq_lib::seq_to_set_is_finite;

    let n = keys.len();
    let s = Seq::new(n + 1, |t: int| anc(m, start, t as nat)->0);
    if s.no_duplicates() {
        s.unique_seq_to_set();
        keys.unique_seq_to_set();
        assert forall|x: u128| s.to_set().contains(x) implies keys.to_set().contains(x) by {
            let t = choose|t: int| 0 <= t < s.len() && s[t] == x;
            assert(m.contains_key(anc(m, start, t as nat)->0));
        }
        vstd::set_lib::lemma_len_subset(s.to_set(), keys.to_set());
        assert(false);
        (0, 1)
    } else {
        let (i, j) = choose|i: int, j: int|
            0 <= i < s.len() && 0 <= j < s.len() && i != j && s[i] == s[j];
        assert(anc(m, start, i as nat) is Some);
        assert(anc(m, start, j as nat) is Some);
        if i < j {
            (i as nat, j as nat)
        } else {
            (j as nat, i as nat)
        }
    }
}

impl CardRegistry {
    /// Whether the walk up the parents from `start` stops: at a card without a
    /// parent, at a missing card, or at `target` when one is given. A walk that
    /// meets more stored cards than there are runs in a cycle and never stops.
    fn walk_halts_from(&self, start: CardId, target: Option<CardId>) -> (r: bool)
        ensures
            r == walk_halts(self@, key(start), target),
    {
        let ghost m = self@;
        let ghost s = key(start);
        let keys = self.key_list();
        let n = keys.len();
        let mut current: Option<CardId> = Some(start);
        let mut i: usize = 0;
        loop
            invariant
                m == self@,
                s == key(start),
                n == keys@.len(),
                keys@.no_duplicates(),
                forall|k: u128| m.contains_key(k) <==> keys@.contains(k),
                i <= n,
                match current {
                    Some(a) => anc(m, s, i as nat) == Some(key(a)),
                    None => anc(m, s, i as nat) is None,
                },
                forall|t: nat|
                    t < i ==> #[trigger] anc(m, s, t) is Some && !meets(anc(m, s, t), target)
                        && m.contains_key(anc(m, s, t)->0),
            decreases n - i,
        {
            match current {
                None => {
                    assert(anc(m, s, i as nat) is None);
                    return true;
                },
                Some(a) => {
                    let hit = match target {
                        Some(t) => a == t,
                        None => false,
                    };
                    if hit {
                        assert(meets(anc(m, s, i as nat), target));
                        return true;
                    }
                    match self.get_card(a) {
                        Err(_) => {
                            proof {
                                lemma_anc_step(m, s, i as nat);
                                assert(anc(m, s, (i + 1) as nat) is None);
                            }
                            return true;
                        },
                        Ok(card) => {
                            proof {
                                lemma_anc_step(m, s, i as nat);
                            }
                            if i == n {
                                proof {
                                    assert forall|t: nat| t <= keys@.len() implies #[trigger] anc(m, s, t) is Some
                                        && m.contains_key(anc(m, s, t)->0) by {
                                        if t == i {
                                        } else {
                                            assert(t < i);
                                        }
                                    }
                                    let (x, y) = lemma_walk_revisits(m, s, keys@);
                                    assert forall|k: nat| !(anc(m, s, k) is None || meets(
                                        anc(m, s, k),
                                        target,
                                    )) by {
                                        let t = lemma_walk_repeats(m, s, x, y, k);
                                        assert(t <= i);
                                        if t < i {
                                            assert(anc(m, s, t) is Some && !meets(anc(m, s, t), target));
                                        }
                                    }
                                }
                                return false;
                            }
                            current = card.parent_id();
                            i = i + 1;
                        },
                    }
                },
            }
        }
    }

    /// Whether the walk up the parents from `start` stops: at a card without a
    /// parent, at a missing card, or at `target`. A walk that meets more stored
    /// cards than there are runs in a cycle and never stops.
    pub fn walk_stops_from(&self, start: CardId, target: CardId) -> (r: bool)
        ensures
            r == walk_stops(self@, key(start), key(target)),
    {
        let r = self.walk_halts_from(start, Some(target));
        proof {
            assert(forall|n: nat| #[trigger] meets(anc(self@, key(start), n), Some(target)) <==> anc(self@, key(start), n) == Some(key(target)));
        }
        r
    }

    /// Whether no card is its own ancestor: every walk up the parents ends.
    pub fn is_acyclic(&self) -> (r: bool)
        ensures
            r == acyclic(self@),
    {
        let keys = self.key_list();
        let mut i: usize = 0;
        while i < keys.len()
            invariant
                i <= keys@.len(),
                forall|k: u128| self@.contains_key(k) <==> keys@.contains(k),
                forall|j: int| 0 <= j < i ==> walk_ends(self@, #[trigger] keys@[j]),
            decreases keys@.len() - i,
        {
            let k = keys[i];
            if !self.walk_halts_from(CardId(k), None) {
                proof {
                    if acyclic(self@) {
                        let rk = choose|rk: spec_fn(u128) -> nat| ranked_by(self@, rk);
                        lemma_walk_ends(self@, rk, k);
                        let n = choose|n: nat| #[trigger] anc(self@, k, n) is None;
                        assert(walk_halts(self@, k, None));
                    }
                }
                return false;
            }
            proof {
                let n = choose|n: nat| anc(self@, k, n) is None || meets(anc(self@, k, n), None);
                assert(anc(self@, k, n) is None);
                assert(walk_ends(self@, keys@[i as int]));
            }
            i = i + 1;
        }
        proof {
            assert forall|k: u128| self@.contains_key(k) implies walk_ends(self@, k) by {
                assert(keys@.contains(k));
                let j = choose|j: int| 0 <= j < keys@.len() && keys@[j] == k;
                assert(walk_ends(self@, keys@[j]));
            }
            lemma_walks_end_give_ranking(self@);
        }
        true
    }
}

impl CardRegistry {
    /// Walks up from `proposed_parent_id` and fails with `CycleDetected` if
    /// `card_id` comes up, or with `CardNotFound` at a missing card.
    fn detect_cycle(&self, card_id: CardId, proposed_parent_id: CardId) -> (r: Result<
        (),
        DomainError,
    >)
        requires
            walk_stops(self@, key(proposed_parent_id), key(card_id)),
        ensures
            cycle_check_outcome(self@, card_id, proposed_parent_id, r),
    {
        let ghost m = self@;
        let ghost start = key(proposed_parent_id);
        let ghost target = key(card_id);
        let ghost n0 = choose|n: nat| anc(m, start, n) is None || anc(m, start, n) == Some(target);
        let mut current: Option<CardId> = Some(proposed_parent_id);
        let ghost mut steps: nat = 0;
        loop
            invariant
                m == self@,
                start == key(proposed_parent_id),
                target == key(card_id),
                anc(m, start, n0) is None || anc(m, start, n0) == Some(target),
                match current {
                    Some(a) => anc(m, start, steps) == Some(key(a)) && steps <= n0,
                    None => anc(m, start, steps) is None,
                },
                forall|j: nat|
                    j < steps ==> #[trigger] anc(m, start, j) is Some && anc(m, start, j) != Some(
                        target,
                    ) && m.contains_key(anc(m, start, j)->0),
            decreases n0 - steps,
        {
            match current {
                None => {
                    proof {
                        assert forall|n: nat| anc(m, start, n) != Some(target) by {
                            if n >= steps {
                                lemma_anc_none(m, start, steps, n);
                            } else {
                                assert(anc(m, start, n) is Some);
                            }
                        }
                        assert(!walk_meets(m, start, target));
                        assert forall|n: nat| !#[trigger] walk_missing_at(m, start, n) by {
                            if n >= steps {
                                lemma_anc_none(m, start, steps, n);
                            } else {
                                assert(m.contains_key(anc(m, start, n)->0));
                            }
                        }
                    }
                    return Ok(());
                },
                Some(a) => {
                    if a == card_id {
                        proof {
                            assert(anc(m, start, steps) == Some(target));
                        }
                        return Err(DomainError::CycleDetected);
                    }
                    match self.get_card(a) {
                        Err(e) => {
                            proof {
                                assert(walk_missing_at(m, start, steps));
                                lemma_anc_step(m, start, steps);
                                assert forall|n: nat| anc(m, start, n) != Some(target) by {
                                    if n > steps {
                                        lemma_anc_none(m, start, steps + 1, n);
                                    }
                                }
                                assert forall|n: nat| #[trigger] walk_missing_at(m, start, n) implies n == steps by {
                                    if n > steps {
                                        lemma_anc_none(m, start, steps + 1, n);
                                    }
                                }
                            }
                            return Err(e);
                        },
                        Ok(card) => {
                            proof {
                                lemma_anc_step(m, start, steps);
                                if steps == n0 {
                                    assert(anc(m, start, n0) == Some(target));
                                }
                            }
                            current = card.parent_id();
                            proof {
                                steps = steps + 1;
                            }
                        },
                    }
                },
            }
        }
    }

    /// Moves a card under a new parent: appended to its children, taken out of
    /// the old parent's children.
    pub fn reparent_card(&mut self, card_id: CardId, new_parent_id: CardId) -> (r: Result<
        (),
        DomainError,
    >)
        requires
            reparent_decidable(old(self)@, card_id, new_parent_id),
        ensures
            reparent_outcome(old(self)@, card_id, new_parent_id, r, final(self)@),
    {
        let ghost m = self@;
        let workspace_id = self.workspace_card_id()?;
        if card_id == workspace_id {
            return Err(
                DomainError::InvalidOperation(
                    String::from_str("The workspace root cannot be reparented"),
                ),
            );
        }
        if card_id == new_parent_id {
            return Err(DomainError::CycleDetected);
        }
        self.detect_cycle(card_id, new_parent_id)?;
        proof {
            assert(anc(m, key(new_parent_id), 0) == Some(key(new_parent_id)));
            if !m.contains_key(key(new_parent_id)) {
                assert(walk_missing_at(m, key(new_parent_id), 0));
            }
        }
        let old_parent_id = self.get_card(card_id)?.parent_id();
        if old_parent_id == Some(new_parent_id) {
            return Ok(());
        }
        self.get_card(new_parent_id)?;
        match self.get_card_mut(new_parent_id) {
            Ok(p) => p.add_child(card_id),
            Err(e) => return Err(e),
        }
        proof {
            assert(self@ =~= adopted(m, new_parent_id, card_id));
        }
        if let Some(old_parent_id) = old_parent_id {
            match self.get_card_mut(old_parent_id) {
                Ok(o) => o.remove_child(card_id),
                Err(e) => return Err(e),
            }
            proof {
                assert(self@ =~= released(adopted(m, new_parent_id, card_id), old_parent_id, card_id));
            }
        }
        let ghost before = self@;
        match self.get_card_mut(card_id) {
            Ok(c) => c.set_parent(Some(new_parent_id)),
            Err(e) => return Err(e),
        }
        proof {
            assert(self@ =~= reattached(before, card_id, new_parent_id));
        }
        Ok(())
    }
}

/// The walk up the parents from `k` ends.
pub open spec fn walk_ends(m: Map<u128, CardModel>, k: u128) -> bool {
    exists|n: nat| #[trigger] anc(m, k, n) is None
}

/// `m` without the cards strictly below `c`.
pub open spec fn without_descendants(m: Map<u128, CardModel>, c: u128) -> Map<u128, CardModel> {
    Map::new(|k: u128| m.contains_key(k) && (k == c || !is_descendant_or_self(m, k, c)), |k: u128| m[k])
}

impl CardRegistry {
    /// Whether the card stored under `x` is the card under `c` or lies below it.
    fn descends_from(&self, x: u128, c: u128) -> (r: bool)
        requires
            walk_ends(self@, x),
        ensures
            r == is_descendant_or_self(self@, x, c),
    {
        let ghost m = self@;
        let ghost n0 = choose|n: nat| #[trigger] anc(m, x, n) is None;
        let mut current: Option<u128> = Some(x);
        let ghost mut steps: nat = 0;
        loop
            invariant
                m == self@,
                anc(m, x, n0) is None,
                match current {
                    Some(a) => anc(m, x, steps) == Some(a) && steps < n0,
                    None => anc(m, x, steps) is None,
                },
                forall|j: nat| j < steps ==> #[trigger] anc(m, x, j) != Some(c),
            decreases n0 - steps,
        {
            match current {
                None => {
                    proof {
                        assert forall|n: nat| anc(m, x, n) != Some(c) by {
                            if n >= steps {
                                lemma_anc_none(m, x, steps, n);
                            }
                        }
                    }
                    return false;
                },
                Some(a) => {
                    if a == c {
                        proof {
                            assert(anc(m, x, steps) == Some(c));
                        }
                        return true;
                    }
                    proof {
                        lemma_anc_step(m, x, steps);
                    }
                    match self.store.get(&a) {
                        None => {
                            current = None;
                        },
                        Some(card) => {
                            current = match card.parent_id() {
                                Some(p) => Some(p.0),
                                None => None,
                            };
                        },
                    }
                    proof {
                        if current is Some && steps + 1 == n0 {
                            assert(anc(m, x, n0) is Some);
                        }
                        steps = steps + 1;
                    }
                },
            }
        }
    }

    /// Removes every card strictly below the card under `c`.
    fn remove_descendants(&mut self, c: u128)
        requires
            forall|k: u128| #[trigger] walk_ends(old(self)@, k),
        ensures
            final(self)@ == without_descendants(old(self)@, c),
    {
        let ghost m = self@;
        let keys = self.key_list();
        let mut doomed: Vec<u128> = Vec::new();
        let mut i: usize = 0;
        while i < keys.len()
            invariant
                m == self@,
                i <= keys@.len(),
                keys@.no_duplicates(),
                forall|k: u128| m.contains_key(k) <==> keys@.contains(k),
                forall|k: u128| #[trigger] walk_ends(m, k),
                forall|y: u128|
                    #[trigger] doomed@.contains(y) <==> (keys@.subrange(0, i as int).contains(y) && y
                        != c && is_descendant_or_self(m, y, c)),
            decreases keys@.len() - i,
        {
            let x = keys[i];
            assert(walk_ends(m, x));
            let below = x != c && self.descends_from(x, c);
            let ghost before = doomed@;
            if below {
                doomed.push(x);
            }
            proof {
                assert(keys@.subrange(0, i + 1) =~= keys@.subrange(0, i as int).push(x));
                assert forall|y: u128|
                    #[trigger] doomed@.contains(y) <==> (keys@.subrange(0, i + 1).contains(y) && y
                        != c && is_descendant_or_self(m, y, c)) by {
                    vstd::seq_lib::lemma_seq_contains_after_push(keys@.subrange(0, i as int), x, y);
                    vstd::seq_lib::lemma_seq_contains_after_push(before, x, y);
                }
            }
            i = i + 1;
        }
        proof {
            assert(keys@.subrange(0, keys@.len() as int) =~= keys@);
        }
        let mut j: usize = 0;
        while j < doomed.len()
            invariant
                j <= doomed@.len(),
                forall|y: u128|
                    #[trigger] doomed@.contains(y) <==> (m.contains_key(y) && y != c
                        && is_descendant_or_self(m, y, c)),
                self@ == Map::new(
                    |k: u128| m.contains_key(k) && !doomed@.subrange(0, j as int).contains(k),
                    |k: u128| m[k],
                ),
            decreases doomed@.len() - j,
        {
            let y = doomed[j];
            let ghost before = self@;
            proof {
                self.lemma_view();
            }
            self.store.remove(&y);
            proof {
                self.lemma_view();
                assert(self@ =~= before.remove(y));
                assert(doomed@.subrange(0, j + 1) =~= doomed@.subrange(0, j as int).push(y));
                assert forall|k: u128|
                    #[trigger] doomed@.subrange(0, j + 1).contains(k) <==> (doomed@.subrange(
                        0,
                        j as int,
                    ).contains(k) || k == y) by {
                    vstd::seq_lib::lemma_seq_contains_after_push(doomed@.subrange(0, j as int), y, k);
                }
                assert(self@ =~= Map::new(
                    |k: u128| m.contains_key(k) && !doomed@.subrange(0, j + 1).contains(k),
                    |k: u128| m[k],
                ));
            }
            j = j + 1;
        }
        proof {
            assert(doomed@.subrange(0, doomed@.len() as int) =~= doomed@);
            assert(self@ =~= without_descendants(m, c));
        }
    }
}

/// `m` without the card `c` and everything below it, and with `c` taken out of
/// its parent's children.
pub open spec fn pruned(m: Map<u128, CardModel>, c: CardId) -> Map<u128, CardModel> {
    let base = Map::new(
        |k: u128| m.contains_key(k) && !is_descendant_or_self(m, k, key(c)),
        |k: u128| m[k],
    );
    match m[key(c)].parent_id {
        Some(p) => released(base, p, c),
        None => base,
    }
}

/// `m` without the card `c`, whose children now follow the other children of
/// its parent `g` and have `g` as their parent.
pub open spec fn lifted(m: Map<u128, CardModel>, c: CardId) -> Map<u128, CardModel> {
    let g = m[key(c)].parent_id->0;
    let ch = m[key(c)].children;
    Map::new(
        |k: u128| m.contains_key(k) && k != key(c),
        |k: u128|
            if k == key(g) {
                CardModel { children: remove_all(m[key(g)].children, c) + ch, ..m[key(g)] }
            } else if ch.contains(CardId(k)) {
                CardModel { parent_id: Some(g), ..m[k] }
            } else {
                m[k]
            },
    )
}

/// `m` with the first `i` children of `c` appended to the children of its
/// parent `g` and given `g` as their parent.
pub open spec fn lifting(m: Map<u128, CardModel>, c: CardId, i: int) -> Map<u128, CardModel> {
    let g = m[key(c)].parent_id->0;
    let ch = m[key(c)].children.take(i);
    Map::new(
        |k: u128| m.contains_key(k),
        |k: u128|
            if k == key(g) {
                CardModel { children: m[key(g)].children + ch, ..m[key(g)] }
            } else if ch.contains(CardId(k)) {
                CardModel { parent_id: Some(g), ..m[k] }
            } else {
                m[k]
            },
    )
}

/// The text of the error for an attempt to delete the workspace card.
pub open spec fn workspace_delete_text() -> Seq<char> {
    "The workspace card cannot be deleted."@
}

/// A ranking that decreases from every stored card to each child it lists.
pub open spec fn children_ranked(m: Map<u128, CardModel>, rk: spec_fn(u128) -> nat) -> bool {
    forall|k: u128, i: int|
        #![trigger m[k].children[i]]
        m.contains_key(k) && 0 <= i < m[k].children.len() ==> rk(key(m[k].children[i])) < rk(k)
}

/// Following the lists of children never comes back to a card.
pub open spec fn children_acyclic(m: Map<u128, CardModel>) -> bool {
    exists|rk: spec_fn(u128) -> nat| children_ranked(m, rk)
}

/// Why a step-by-step deletion stopped.
pub enum DeleteFault {
    /// The registry has not exactly one workspace card: it has several, or
    /// none.
    NoSingleWorkspace(bool),
    /// The card is the workspace card.
    WorkspaceCard,
    /// A card, or a parent, is not stored.
    NotFound(CardId),
}

/// The error that a deletion stopped by `f` returns, or success for none.
pub open spec fn fault_result(f: Option<DeleteFault>, r: Result<(), DomainError>) -> bool {
    match f {
        None => r is Ok,
        Some(DeleteFault::NoSingleWorkspace(several)) => r matches Err(
            DomainError::InvalidOperation(t),
        ) && t@ == if several {
            multiple_workspaces_text()
        } else {
            missing_workspace_text()
        },
        Some(DeleteFault::WorkspaceCard) => r matches Err(DomainError::InvalidOperation(msg))
            && msg@ == workspace_delete_text(),
        Some(DeleteFault::NotFound(id)) => r == Err::<(), DomainError>(DomainError::CardNotFound(id)),
    }
}

/// The last step of deleting `c`, whose parent was `parent`: `c` is taken out
/// of its parent's children and out of the registry; stopped, with nothing
/// changed, when that parent is not stored.
pub open spec fn detached(m: Map<u128, CardModel>, c: CardId, parent: Option<CardId>) -> (
    Option<DeleteFault>,
    Map<u128, CardModel>,
) {
    match parent {
        Some(p) => if m.contains_key(key(p)) {
            (None, released(m, p, c).remove(key(c)))
        } else {
            (Some(DeleteFault::NotFound(p)), m)
        },
        None => (None, m.remove(key(c))),
    }
}

/// What deleting `c` together with what it lists as children does, step by
/// step: the same refusals as any deletion, then each listed child deleted in
/// the same way, in order, stopping at the first refusal (what was deleted
/// stays deleted), then `c` detached. `rk` ranks the lists of children; it only
/// bounds the steps.
pub open spec fn cascade(m: Map<u128, CardModel>, c: CardId, rk: spec_fn(u128) -> nat) -> (
    Option<DeleteFault>,
    Map<u128, CardModel>,
)
    decreases rk(key(c)), 1nat, 0nat,
{
    if !single_root(m) {
        (Some(DeleteFault::NoSingleWorkspace(exists|k: u128| is_root(m, k))), m)
    } else if c == m[the_root(m)].id {
        (Some(DeleteFault::WorkspaceCard), m)
    } else if !m.contains_key(key(c)) {
        (Some(DeleteFault::NotFound(c)), m)
    } else {
        let (f1, m1) = cascade_children(m, m[key(c)].children, rk, rk(key(c)));
        if f1 is Some {
            (f1, m1)
        } else {
            detached(m1, c, m[key(c)].parent_id)
        }
    }
}

/// Deleting the cards `chs` one after another with `cascade`, stopping at the
/// first refusal; each must rank below `bound`.
pub open spec fn cascade_children(
    m: Map<u128, CardModel>,
    chs: Seq<CardId>,
    rk: spec_fn(u128) -> nat,
    bound: nat,
) -> (Option<DeleteFault>, Map<u128, CardModel>)
    decreases bound, 0nat, chs.len(),
{
    if chs.len() == 0 {
        (None, m)
    } else if rk(key(chs.last())) < bound {
        let (f1, m1) = cascade_children(m, chs.drop_last(), rk, bound);
        if f1 is Some {
            (f1, m1)
        } else {
            cascade(m1, chs.last(), rk)
        }
    } else {
        (None, m)
    }
}

/// The text of the error for moving the children of a card without parent.
pub open spec fn no_grandparent_text() -> Seq<char> {
    "Cannot reparent to grandparent: card has no parent."@
}

/// Moving the cards `chs` one after another under `g` as `reparent_card` does,
/// each after the one before succeeded: `states[i]` is the registry before the
/// `i`-th move and `results[i]` what that move returned.
pub open spec fn lift_steps(
    m: Map<u128, CardModel>,
    chs: Seq<CardId>,
    g: CardId,
    states: Seq<Map<u128, CardModel>>,
    results: Seq<Result<(), DomainError>>,
) -> bool {
    &&& states.len() == results.len() + 1
    &&& states[0] == m
    &&& results.len() <= chs.len()
    &&& forall|i: int|
        0 <= i < results.len() ==> #[trigger] reparent_outcome(
            states[i],
            chs[i],
            g,
            results[i],
            states[i + 1],
        )
    &&& forall|i: int| 0 <= i < results.len() - 1 ==> (#[trigger] results[i]) is Ok
}

/// Deleting card `c` with strategy `s` can be decided on `m`: the registry
/// lacks a single workspace card, or the card is the workspace card, is not
/// stored, has no children, or is refused for having children; deleting the
/// cards it lists needs lists of children that never lead back to a card;
/// moving its children to its parent needs walks up the parents that end.
pub open spec fn delete_decidable(m: Map<u128, CardModel>, c: CardId, s: DeleteStrategy) -> bool {
    ||| !single_root(m)
    ||| c == m[the_root(m)].id
    ||| !m.contains_key(key(c))
    ||| m[key(c)].children.len() == 0
    ||| s == DeleteStrategy::Reject
    ||| s == DeleteStrategy::CascadeDelete && children_acyclic(m)
    ||| s == DeleteStrategy::ReparentToGrandparent && acyclic(m)
    ||| well_formed(m)
}

/// What deleting card `c` with strategy `s` does. Refused, with nothing
/// changed, when there is not exactly one workspace card, for the workspace
/// card, for a card that is not stored, and for a card with children under
/// `Reject`. A card with children under `ReparentToGrandparent` is deleted and
/// its children move to its parent; under `CascadeDelete` the card and
/// everything below it are deleted. In a registry that is not well formed the
/// deletion goes step by step as the strategy says: through the lists of
/// children (`cascade`), or moving each child under the parent in turn
/// (`lift_steps`), stopping at the first refusal. A card without children is taken out of
/// its parent's children and out of the registry; when that parent is not
/// stored, the deletion is refused with nothing changed.
pub open spec fn delete_outcome(
    m: Map<u128, CardModel>,
    c: CardId,
    s: DeleteStrategy,
    r: Result<(), DomainError>,
    m2: Map<u128, CardModel>,
) -> bool {
    if !single_root(m) {
        (r matches Err(DomainError::InvalidOperation(t)) && t@ == workspace_fault_text(m)) && m2
            == m
    } else if c == m[the_root(m)].id {
        r matches Err(DomainError::InvalidOperation(msg)) && msg@ == workspace_delete_text() && m2
            == m
    } else if !m.contains_key(key(c)) {
        r == Err::<(), DomainError>(DomainError::CardNotFound(c)) && m2 == m
    } else if m[key(c)].children.len() > 0 && s == DeleteStrategy::Reject {
        r == Err::<(), DomainError>(DomainError::CardHasChildren) && m2 == m
    } else if m[key(c)].children.len() > 0 && s == DeleteStrategy::ReparentToGrandparent {
        if well_formed(m) {
            r is Ok && m2 == lifted(m, c)
        } else {
            match m[key(c)].parent_id {
                None => r matches Err(DomainError::InvalidOperation(msg)) && msg@
                    == no_grandparent_text() && m2 == m,
                Some(g) => exists|
                    states: Seq<Map<u128, CardModel>>,
                    results: Seq<Result<(), DomainError>>,
                |
                    #[trigger] lift_steps(m, m[key(c)].children, g, states, results) && (
                    results.len() < m[key(c)].children.len() ==> results.len() > 0
                        && results.last() is Err) && if results.len() > 0
                        && results.last() is Err {
                        r == results.last() && m2 == states.last()
                    } else {
                        fault_result(detached(states.last(), c, Some(g)).0, r) && m2 == detached(
                            states.last(),
                            c,
                            Some(g),
                        ).1
                    },
            }
        }
    } else if m[key(c)].children.len() > 0 {
        if well_formed(m) {
            r is Ok && m2 == pruned(m, c)
        } else {
            exists|rk: spec_fn(u128) -> nat|
                children_ranked(m, rk) && fault_result(#[trigger] cascade(m, c, rk).0, r) && m2
                    == cascade(m, c, rk).1
        }
    } else {
        match m[key(c)].parent_id {
            Some(p) => if m.contains_key(key(p)) {
                r is Ok && m2 == released(m, p, c).remove(key(c))
            } else {
                r == Err::<(), DomainError>(DomainError::CardNotFound(p)) && m2 == m
            },
            None => r is Ok && m2 == m.remove(key(c)),
        }
    }
}

impl CardRegistry {
    /// Gives the children of `c` to its parent `g`: appended to `g`'s children,
    /// with `g` as their parent.
    fn lift_children(&mut self, c: CardId, g: CardId, children: &Vec<CardId>)
        requires
            well_formed(old(self)@),
            old(self)@.contains_key(key(c)),
            old(self)@[key(c)].parent_id == Some(g),
            children@ == old(self)@[key(c)].children,
        ensures
            final(self)@ == lifting(old(self)@, c, children@.len() as int),
    {
        let ghost m = self@;
        let ghost kg = key(g);
        proof {
            assert(card_ok(m, key(c)));
            assert(m.contains_key(kg));
            assert(lifting(m, c, 0) =~= m) by {
                assert(m[key(c)].children.take(0) =~= Seq::<CardId>::empty());
                assert(m[kg].children + Seq::<CardId>::empty() =~= m[kg].children);
            }
        }
        let mut i: usize = 0;
        while i < children.len()
            invariant
                well_formed(m),
                m.contains_key(key(c)),
                m[key(c)].parent_id == Some(g),
                kg == key(g),
                m.contains_key(kg),
                children@ == m[key(c)].children,
                i <= children@.len(),
                self@ == lifting(m, c, i as int),
            decreases children@.len() - i,
        {
            let ch = children[i];
            let ghost kch = key(ch);
            let ghost before = self@;
            proof {
                assert(card_ok(m, key(c)));
                assert(m.contains_key(kch));
                assert(m[kch].parent_id == Some(CardId(key(c))));
                assert(CardId(key(c)) == c);
                assert(kch != kg) by {
                    if kch == kg {
                        lemma_no_two_cycle(m, key(c), kg);
                    }
                }
                assert(!children@.take(i as int).contains(ch)) by {
                    if children@.take(i as int).contains(ch) {
                        let j = choose|j: int| 0 <= j < i && children@.take(i as int)[j] == ch;
                        assert(children@[j] == children@[i as int]);
                    }
                }
                assert(before[kch] == m[kch]);
            }
            match self.get_card_mut(ch) {
                Ok(card) => card.set_parent(Some(g)),
                Err(e) => {
                    assert(false);
                },
            }
            match self.get_card_mut(g) {
                Ok(card) => card.add_child(ch),
                Err(e) => {
                    assert(false);
                },
            }
            proof {
                assert(children@.take(i + 1) =~= children@.take(i as int).push(ch));
                assert forall|x: CardId| #[trigger] children@.take(i + 1).contains(x) <==> (children@.take(i as int).contains(x) || x == ch) by {
                    vstd::seq_lib::lemma_seq_contains_after_push(children@.take(i as int), ch, x);
                }
                assert(CardId(kch) == ch);
                assert(self@ =~= lifting(m, c, i + 1));
            }
            i = i + 1;
        }
    }

    /// Deletes a card; what happens to its children depends on the strategy.
    pub fn delete_card(&mut self, card_id: CardId, strategy: DeleteStrategy) -> (r: Result<
        (),
        DomainError,
    >)
        requires
            delete_decidable(old(self)@, card_id, strategy),
        ensures
            delete_outcome(old(self)@, card_id, strategy, r, final(self)@),
    {
        let ghost m = self@;
        let ghost kc = key(card_id);
        let workspace_id = self.workspace_card_id()?;
        if card_id == workspace_id {
            return Err(
                DomainError::InvalidOperation(
                    String::from_str("The workspace card cannot be deleted."),
                ),
            );
        }
        let card = self.get_card(card_id)?;
        let children = vstd::slice::slice_to_vec(card.children_ids());
        let parent_id = card.parent_id();
        if children.len() > 0 && strategy != DeleteStrategy::Reject {
            let checked = self.validate();
            if checked.is_err() {
                if strategy == DeleteStrategy::CascadeDelete {
                    let ghost rk = choose|rk: spec_fn(u128) -> nat| children_ranked(m, rk);
                    let r = self.delete_listed_subtree(card_id, Ghost(rk));
                    proof {
                        assert(children_ranked(m, rk) && fault_result(
                            cascade(m, card_id, rk).0,
                            r,
                        ) && self@ == cascade(m, card_id, rk).1);
                    }
                    return r;
                } else {
                    return self.delete_lifting_step_by_step(card_id, parent_id, &children);
                }
            }
        }
        proof {
            if children.len() > 0 && strategy != DeleteStrategy::Reject {
                assert(well_formed(m));
                let root = the_root(m);
                assert(is_root(m, root));
                assert(card_ok(m, root));
                assert(card_ok(m, kc));
                assert(CardId(kc) == card_id);
                if parent_id is None {
                    assert(is_root(m, kc));
                }
                assert(parent_id is Some);
                let kp = key(parent_id->0);
                assert(m.contains_key(kp));
                assert(kp != kc) by {
                    assert(m[kp].children.contains(card_id));
                    let j = choose|j: int|
                        0 <= j < m[kp].children.len() && m[kp].children[j] == card_id;
                    assert(card_ok(m, kp));
                }
            }
        }
        if children.len() > 0 {
            match strategy {
                DeleteStrategy::Reject => {
                    return Err(DomainError::CardHasChildren);
                },
                DeleteStrategy::CascadeDelete => {
                    proof {
                        let rk = choose|rk: spec_fn(u128) -> nat| ranked_by(m, rk);
                        assert forall|k: u128| #[trigger] walk_ends(m, k) by {
                            lemma_walk_ends(m, rk, k);
                        }
                    }
                    self.remove_descendants(card_id.0);
                },
                DeleteStrategy::ReparentToGrandparent => {
                    match parent_id {
                        None => {
                            return Err(
                                DomainError::InvalidOperation(
                                    String::from_str(
                                        "Cannot reparent to grandparent: card has no parent.",
                                    ),
                                ),
                            );
                        },
                        Some(g) => {
                            self.lift_children(card_id, g, &children);
                        },
                    }
                },
            }
        }
        let ghost mid = self@;
        proof {
            if children.len() > 0 {
                let kp = key(parent_id->0);
                assert(mid.contains_key(kp)) by {
                    if strategy == DeleteStrategy::CascadeDelete {
                        lemma_parent_not_below(m, kc);
                    }
                }
            } else {
                assert(mid == m);
            }
        }
        match parent_id {
            Some(pid) => {
                match self.get_card_mut(pid) {
                    Ok(pc) => pc.remove_child(card_id),
                    Err(e) => {
                        return Err(e);
                    },
                }
            },
            None => {},
        }
        let ghost after_release = self@;
        proof {
            self.lemma_view();
            if parent_id is Some {
                assert(after_release == released(mid, parent_id->0, card_id));
            } else {
                assert(after_release == mid);
            }
        }
        self.store.remove(&card_id.0);
        proof {
            self.lemma_view();
            assert(self@ =~= after_release.remove(kc));
            if children.len() > 0 {
                let p = parent_id->0;
                assert(anc(m, kc, 0) == Some(kc));
                assert(is_descendant_or_self(m, kc, kc));
                if strategy == DeleteStrategy::ReparentToGrandparent {
                    lemma_lifting_done(m, card_id);
                    assert(self@ =~= lifted(m, card_id));
                } else {
                    lemma_parent_not_below(m, kc);
                    assert(mid == without_descendants(m, kc));
                    assert(self@ =~= pruned(m, card_id));
                }
            }
        }
        Ok(())
    }
}

/// Once deleting a list of cards has stopped, the cards after it change nothing.
proof fn lemma_cascade_stops(
    m: Map<u128, CardModel>,
    chs: Seq<CardId>,
    rk: spec_fn(u128) -> nat,
    bound: nat,
    j: int,
)
    requires
        0 <= j <= chs.len(),
        cascade_children(m, chs.take(j), rk, bound).0 is Some,
        forall|i: int| 0 <= i < chs.len() ==> rk(key(#[trigger] chs[i])) < bound,
    ensures
        cascade_children(m, chs, rk, bound) == cascade_children(m, chs.take(j), rk, bound),
    decreases chs.len() - j,
{
    if j < chs.len() {
        let t = chs.take(j + 1);
        assert(t.drop_last() =~= chs.take(j));
        assert(t.last() == chs[j]);
        assert(cascade_children(m, t, rk, bound) == cascade_children(m, chs.take(j), rk, bound));
        lemma_cascade_stops(m, chs, rk, bound, j + 1);
    } else {
        assert(chs.take(j) =~= chs);
    }
}

/// Taking a card out of a parent's children, or out of the registry, keeps a
/// ranking of the lists of children.
proof fn lemma_detached_keeps_ranked(
    m: Map<u128, CardModel>,
    c: CardId,
    p: CardId,
    rk: spec_fn(u128) -> nat,
)
    requires
        children_ranked(m, rk),
        m.contains_key(key(p)),
    ensures
        children_ranked(released(m, p, c), rk),
        children_ranked(released(m, p, c).remove(key(c)), rk),
        children_ranked(m.remove(key(c)), rk),
{
    let m1 = released(m, p, c);
    lemma_remove_all(m[key(p)].children, c);
    assert forall|k: u128, i: int|
        m1.contains_key(k) && 0 <= i < m1[k].children.len() implies rk(
        key(#[trigger] m1[k].children[i]),
    ) < rk(k) by {
        if k == key(p) {
            let x = m1[k].children[i];
            assert(remove_all(m[key(p)].children, c).contains(x));
            let j = choose|j: int| 0 <= j < m[key(p)].children.len() && m[key(p)].children[j] == x;
            assert(rk(key(m[key(p)].children[j])) < rk(key(p)));
        } else {
            assert(m1[k] == m[k]);
            assert(rk(key(m[k].children[i])) < rk(k));
        }
    }
    let m2 = m1.remove(key(c));
    assert forall|k: u128, i: int|
        m2.contains_key(k) && 0 <= i < m2[k].children.len() implies rk(
        key(#[trigger] m2[k].children[i]),
    ) < rk(k) by {
        assert(m2[k] == m1[k]);
        assert(rk(key(m1[k].children[i])) < rk(k));
    }
    let m3 = m.remove(key(c));
    assert forall|k: u128, i: int|
        m3.contains_key(k) && 0 <= i < m3[k].children.len() implies rk(
        key(#[trigger] m3[k].children[i]),
    ) < rk(k) by {
        assert(m3[k] == m[k]);
        assert(rk(key(m[k].children[i])) < rk(k));
    }
}

impl CardRegistry {
    /// Deletes `c`, a card with children in a registry that is not well formed,
    /// by moving each of its children under its parent in turn as
    /// `reparent_card` does, stopping at the first refusal, then detaching it.
    fn delete_lifting_step_by_step(
        &mut self,
        c: CardId,
        parent_id: Option<CardId>,
        children: &Vec<CardId>,
    ) -> (r: Result<(), DomainError>)
        requires
            single_root(old(self)@),
            c != old(self)@[the_root(old(self)@)].id,
            old(self)@.contains_key(key(c)),
            !well_formed(old(self)@),
            acyclic(old(self)@),
            children@ == old(self)@[key(c)].children,
            children@.len() > 0,
            parent_id == old(self)@[key(c)].parent_id,
        ensures
            delete_outcome(
                old(self)@,
                c,
                DeleteStrategy::ReparentToGrandparent,
                r,
                final(self)@,
            ),
    {
        let ghost m = self@;
        let g = match parent_id {
            None => {
                return Err(
                    DomainError::InvalidOperation(
                        String::from_str("Cannot reparent to grandparent: card has no parent."),
                    ),
                );
            },
            Some(g) => g,
        };
        let ghost mut states: Seq<Map<u128, CardModel>> = seq![m];
        let ghost mut results: Seq<Result<(), DomainError>> = Seq::empty();
        let mut i: usize = 0;
        while i < children.len()
            invariant
                m == old(self)@,
                single_root(m),
                c != m[the_root(m)].id,
                m.contains_key(key(c)),
                !well_formed(m),
                m[key(c)].parent_id == Some(g),
                children@ == m[key(c)].children,
                children@.len() > 0,
                i <= children@.len(),
                results.len() == i,
                lift_steps(m, children@, g, states, results),
                forall|j: int| 0 <= j < i ==> (#[trigger] results[j]) is Ok,
                states.last() == self@,
                acyclic(self@),
            decreases children@.len() - i,
        {
            let ch = children[i];
            let ghost before = self@;
            proof {
                lemma_acyclic_reparent_decidable(before, ch, g);
            }
            let r1 = self.reparent_card(ch, g);
            proof {
                lemma_reparent_keeps_acyclic(before, ch, g, r1, self@);
                let s0 = states;
                let q0 = results;
                states = states.push(self@);
                results = results.push(r1);
                assert forall|j: int| 0 <= j < results.len() implies #[trigger] reparent_outcome(
                    states[j],
                    children@[j],
                    g,
                    results[j],
                    states[j + 1],
                ) by {
                    if j < i {
                        assert(states[j] == s0[j] && states[j + 1] == s0[j + 1]
                            && results[j] == q0[j]);
                    } else {
                        assert(states[j] == before);
                    }
                }
                assert forall|j: int| 0 <= j < results.len() - 1 implies (
                #[trigger] results[j]) is Ok by {
                    assert(results[j] == q0[j]);
                }
            }
            match r1 {
                Ok(()) => {},
                Err(e) => {
                    proof {
                        let rr: Result<(), DomainError> = Err(e);
                        assert(results.last() == r1);
                        let gg = m[key(c)].parent_id->0;
                        assert(gg == g);
                        assert(lift_steps(m, m[key(c)].children, gg, states, results));
                        assert(exists|
                            st: Seq<Map<u128, CardModel>>,
                            rs: Seq<Result<(), DomainError>>,
                        |
                            #[trigger] lift_steps(m, m[key(c)].children, gg, st, rs) && (rs.len()
                                < m[key(c)].children.len() ==> rs.len() > 0 && rs.last() is Err)
                                && if rs.len() > 0 && rs.last() is Err {
                                rr == rs.last() && self@ == st.last()
                            } else {
                                fault_result(detached(st.last(), c, Some(gg)).0, rr) && self@
                                    == detached(st.last(), c, Some(gg)).1
                            });
                    }
                    return Err(e);
                },
            }
            proof {
                assert forall|j: int| 0 <= j < i + 1 implies (#[trigger] results[j]) is Ok by {
                }
            }
            i = i + 1;
        }
        let ghost mid = self@;
        match self.get_card_mut(g) {
            Ok(pc) => pc.remove_child(c),
            Err(e) => {
                proof {
                    assert(lift_steps(m, m[key(c)].children, g, states, results));
                }
                return Err(e);
            },
        }
        proof {
            self.lemma_view();
            assert(self@ == released(mid, g, c));
        }
        let ghost after_release = self@;
        self.store.remove(&c.0);
        proof {
            self.lemma_view();
            assert(self@ =~= after_release.remove(key(c)));
            assert(lift_steps(m, m[key(c)].children, g, states, results));
        }
        Ok(())
    }
}

impl CardRegistry {
    /// Deletes `c` and, before it, each card it lists as a child, in order and
    /// in the same way, stopping at the first refusal; what was deleted before
    /// a refusal stays deleted.
    fn delete_listed_subtree(&mut self, c: CardId, Ghost(rk): Ghost<spec_fn(u128) -> nat>) -> (r:
        Result<(), DomainError>)
        requires
            children_ranked(old(self)@, rk),
        ensures
            fault_result(cascade(old(self)@, c, rk).0, r),
            final(self)@ == cascade(old(self)@, c, rk).1,
            children_ranked(final(self)@, rk),
        decreases rk(key(c)),
    {
        let ghost m0 = self@;
        let workspace_id = self.workspace_card_id()?;
        if c == workspace_id {
            return Err(
                DomainError::InvalidOperation(
                    String::from_str("The workspace card cannot be deleted."),
                ),
            );
        }
        let card = self.get_card(c)?;
        let children = vstd::slice::slice_to_vec(card.children_ids());
        let parent_id = card.parent_id();
        let ghost kc = key(c);
        proof {
            assert(cascade_children(m0, children@.take(0), rk, rk(kc)) == (
                None::<DeleteFault>,
                m0,
            )) by {
                assert(children@.take(0).len() == 0);
            }
        }
        let mut i: usize = 0;
        while i < children.len()
            invariant
                kc == key(c),
                m0 == old(self)@,
                single_root(m0),
                c != m0[the_root(m0)].id,
                m0.contains_key(kc),
                children@ == m0[kc].children,
                children_ranked(m0, rk),
                i <= children@.len(),
                cascade_children(m0, children@.take(i as int), rk, rk(kc)) == (
                    None::<DeleteFault>,
                    self@,
                ),
                children_ranked(self@, rk),
            decreases children@.len() - i,
        {
            let ch = children[i];
            let ghost before = self@;
            proof {
                assert(m0[kc].children[i as int] == ch);
                assert(rk(key(m0[kc].children[i as int])) < rk(kc));
            }
            let r1 = self.delete_listed_subtree(ch, Ghost(rk));
            proof {
                let t = children@.take(i + 1);
                assert(t.drop_last() =~= children@.take(i as int));
                assert(t.last() == ch);
                assert(cascade_children(m0, t, rk, rk(kc)) == cascade(before, ch, rk));
            }
            match r1 {
                Ok(()) => {},
                Err(e) => {
                    proof {
                        assert forall|j: int| 0 <= j < children@.len() implies rk(
                            key(#[trigger] children@[j]),
                        ) < rk(kc) by {
                            assert(m0[kc].children[j] == children@[j]);
                        }
                        lemma_cascade_stops(m0, children@, rk, rk(kc), i + 1);
                    }
                    return Err(e);
                },
            }
            i = i + 1;
        }
        let ghost mid = self@;
        proof {
            assert(children@.take(children@.len() as int) =~= children@);
            assert(cascade_children(m0, m0[kc].children, rk, rk(kc)) == (None::<DeleteFault>, mid));
        }
        match parent_id {
            Some(pid) => {
                match self.get_card_mut(pid) {
                    Ok(pc) => pc.remove_child(c),
                    Err(e) => {
                        return Err(e);
                    },
                }
                proof {
                    self.lemma_view();
                    assert(self@ == released(mid, pid, c));
                    lemma_detached_keeps_ranked(mid, c, pid, rk);
                }
            },
            None => {},
        }
        let ghost after_release = self@;
        self.store.remove(&c.0);
        proof {
            self.lemma_view();
            assert(self@ =~= after_release.remove(kc));
            match parent_id {
                Some(pid) => {},
                None => {
                    assert(after_release == mid);
                    assert(children_ranked(mid.remove(kc), rk)) by {
                        let m3 = mid.remove(kc);
                        assert forall|k: u128, j: int|
                            m3.contains_key(k) && 0 <= j < m3[k].children.len() implies rk(
                            key(#[trigger] m3[k].children[j]),
                        ) < rk(k) by {
                            assert(m3[k] == mid[k]);
                            assert(rk(key(mid[k].children[j])) < rk(k));
                        }
                    }
                },
            }
            assert(detached(mid, c, parent_id) == (None::<DeleteFault>, self@));
        }
        Ok(())
    }
}

/// In a well-formed registry, deleting a card without children as the leaf
/// case does deletes the card and everything below it: just the card.
pub proof fn lemma_leaf_delete_is_pruned(m: Map<u128, CardModel>, c: CardId)
    requires
        well_formed(m),
        m.contains_key(key(c)),
        m[key(c)].children.len() == 0,
        m[key(c)].parent_id is Some,
    ensures
        released(m, m[key(c)].parent_id->0, c).remove(key(c)) == pruned(m, c),
{
    let kc = key(c);
    let p = m[kc].parent_id->0;
    lemma_leaf_alone(m, kc);
    assert(card_ok(m, kc));
    assert(m.contains_key(key(p)));
    assert(key(p) != kc) by {
        assert(card_ok(m, key(p)));
        assert(m[key(p)].children.contains(c));
        let j = choose|j: int| 0 <= j < m[key(p)].children.len() && m[key(p)].children[j] == c;
    }
    assert(anc(m, kc, 0) == Some(kc));
    assert(released(m, p, c).remove(kc) =~= pruned(m, c));
}

/// The parent of a card is not below it.
pub proof fn lemma_parent_not_below(m: Map<u128, CardModel>, k: u128)
    requires
        well_formed(m),
        m.contains_key(k),
        m[k].parent_id is Some,
    ensures
        !is_descendant_or_self(m, key(m[k].parent_id->0), k),
{
    let kp = key(m[k].parent_id->0);
    let rk = choose|rk: spec_fn(u128) -> nat| ranked_by(m, rk);
    assert(rk(kp) < rk(k));
    assert(card_ok(m, k));
    assert(m.contains_key(kp));
    if is_descendant_or_self(m, kp, k) {
        let n = choose|n: nat| anc(m, kp, n) == Some(k);
        if n == 0 {
            assert(kp == k);
        } else {
            lemma_rank_decreases(m, rk, kp, n);
        }
    }
}

/// Below a card without children there is nothing.
pub proof fn lemma_leaf_alone(m: Map<u128, CardModel>, k: u128)
    requires
        well_formed(m),
        m.contains_key(k),
        m[k].children.len() == 0,
    ensures
        forall|x: u128| #[trigger] is_descendant_or_self(m, x, k) ==> x == k,
{
    assert forall|x: u128| #[trigger] is_descendant_or_self(m, x, k) implies x == k by {
        let n = choose|n: nat| anc(m, x, n) == Some(k);
        if n > 0 {
            lemma_anc_step(m, x, (n - 1) as nat);
            let y = anc(m, x, (n - 1) as nat)->0;
            assert(m.contains_key(y) && m[y].parent_id is Some);
            assert(key(m[y].parent_id->0) == k);
            assert(card_ok(m, y));
            assert(m[k].children.contains(CardId(y)));
        }
    }
}

/// After every child has been given to the parent, taking the card out of its
/// parent's children and out of the registry leaves the lifted registry.
pub proof fn lemma_lifting_done(m: Map<u128, CardModel>, c: CardId)
    requires
        well_formed(m),
        m.contains_key(key(c)),
        m[key(c)].parent_id is Some,
    ensures
        ({
            let g = m[key(c)].parent_id->0;
            let l = lifting(m, c, m[key(c)].children.len() as int);
            released(l, g, c).remove(key(c)) == lifted(m, c)
        }),
{
    let g = m[key(c)].parent_id->0;
    let ch = m[key(c)].children;
    assert(ch.take(ch.len() as int) =~= ch);
    assert(card_ok(m, key(c)));
    assert(CardId(key(c)) == c);
    assert(!ch.contains(c)) by {
        if ch.contains(c) {
            let j = choose|j: int| 0 <= j < ch.len() && ch[j] == c;
            assert(ch[j] != CardId(key(c)));
        }
    }
    lemma_remove_all_concat(m[key(g)].children, ch, c);
    lemma_remove_all(ch, c);
    let l = lifting(m, c, ch.len() as int);
    assert(key(g) != key(c)) by {
        assert(m.contains_key(key(g)));
        assert(card_ok(m, key(g)));
        assert(m[key(g)].children.contains(c));
        let j = choose|j: int| 0 <= j < m[key(g)].children.len() && m[key(g)].children[j] == c;
    }
    assert(released(l, g, c).remove(key(c)) =~= lifted(m, c));
}

} // verus!
