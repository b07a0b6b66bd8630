//! Searching the workspace: cards whose title, and note pages whose title or
//! body, contain the query, ignoring case.

use crate::card::CardModel;
use crate::ids::CardId;
use crate::note::NoteModel;
use crate::registry::model::key;
use crate::registry::CardRegistry;
use crate::text::{has_infix, occurs_at, text_contains};
use vstd::prelude::*;
use vstd::string::*;

verus! {

/// What `str::to_lowercase` makes of a text.
pub uninterp spec fn std_lowercase(s: Seq<char>) -> Seq<char>;

/// `str::to_lowercase`: the text with each character replaced by its Unicode
/// lowercase mapping. The contract only ties the result to the name
/// `std_lowercase`; the mapping itself is left unsaid.
#[verifier::external_body]
fn lowercase(s: &str) -> (r: String)
    ensures
        r@ == std_lowercase(s@),
{
    s.to_lowercase()
}

/// The most results a search gives.
pub const MAX_SEARCH_RESULTS: usize = 10;

/// A text matches a lowercased query when, lowercased, it contains it.
pub open spec fn text_matches(text: Seq<char>, query: Seq<char>) -> bool {
    has_infix(std_lowercase(text), query)
}

/// What a search shows of the parent of a matching card: its title, or
/// "Workspace" for a card without a stored parent.
pub open spec fn parent_label(m: Map<u128, CardModel>, c: CardModel) -> Seq<char> {
    match c.parent_id {
        Some(p) => if m.contains_key(key(p)) {
            m[key(p)].title
        } else {
            "Workspace"@
        },
        None => "Workspace"@,
    }
}

/// The results for the note pages of card `c`, in order.
pub open spec fn note_hits(c: CardModel, notes: Seq<NoteModel>, query: Seq<char>) -> Seq<
    (CardId, Seq<char>, Seq<char>),
>
    decreases notes.len(),
{
    if notes.len() == 0 {
        Seq::empty()
    } else {
        let n = notes.last();
        note_hits(c, notes.drop_last(), query) + if text_matches(n.title, query) || text_matches(
            n.body,
            query,
        ) {
            seq![(c.id, c.title + " (Note: "@ + n.title + ")"@, "Notes"@)]
        } else {
            Seq::empty()
        }
    }
}

/// The results for card `c`: the card itself when its title matches, then its
/// matching note pages.
pub open spec fn card_hits(m: Map<u128, CardModel>, c: CardModel, query: Seq<char>) -> Seq<
    (CardId, Seq<char>, Seq<char>),
> {
    (if text_matches(c.title, query) {
        seq![(c.id, c.title, parent_label(m, c))]
    } else {
        Seq::empty()
    }) + note_hits(c, c.notes, query)
}

/// The results for a list of cards, in order.
pub open spec fn all_hits(m: Map<u128, CardModel>, cards: Seq<CardModel>, query: Seq<char>) -> Seq<
    (CardId, Seq<char>, Seq<char>),
>
    decreases cards.len(),
{
    if cards.len() == 0 {
        Seq::empty()
    } else {
        all_hits(m, cards.drop_last(), query) + card_hits(m, cards.last(), query)
    }
}

/// The views of a list of results.
pub open spec fn hit_views(r: Seq<(CardId, String, String)>) -> Seq<(CardId, Seq<char>, Seq<char>)> {
    r.map_values(|h: (CardId, String, String)| (h.0, h.1@, h.2@))
}

/// The first results, at most `MAX_SEARCH_RESULTS`.
pub open spec fn first_results<T>(s: Seq<T>) -> Seq<T> {
    if s.len() > MAX_SEARCH_RESULTS {
        s.take(MAX_SEARCH_RESULTS as int)
    } else {
        s
    }
}

/// Searches the workspace for `query`, ignoring case: each card whose title
/// contains it (with its parent's title, or "Workspace"), and each note page
/// whose title or body contains it (as "Notes"). Cards are taken in the
/// registry's own order; at most `MAX_SEARCH_RESULTS` results are kept. An
/// empty query finds nothing.
pub fn search_workspace(registry: &CardRegistry, query: &str) -> (r: Vec<(CardId, String, String)>)
    ensures
        std_lowercase(query@).len() == 0 ==> r@.len() == 0,
        std_lowercase(query@).len() > 0 ==> exists|ks: Seq<u128>|
            #![trigger ks.len()]
            ks.no_duplicates() && (forall|k: u128| registry@.contains_key(k) <==> ks.contains(k))
                && hit_views(r@) == first_results(
                all_hits(registry@, ks.map_values(|k: u128| registry@[k]), std_lowercase(query@)),
            ),
{
    let ghost m = registry@;
    let q = lowercase(query);
    if q.as_str().unicode_len() == 0 {
        return Vec::new();
    }
    let cards = registry.cards();
    let ghost ks = choose|ks: Seq<u128>|
        #![trigger ks.len()]
        ks.len() == cards@.len() && ks.no_duplicates() && (forall|k: u128|
            m.contains_key(k) <==> ks.contains(k)) && forall|i: int|
            0 <= i < cards@.len() ==> (#[trigger] cards@[i])@ == m[ks[i]];
    let ghost models = ks.map_values(|k: u128| m[k]);
    let mut hits: Vec<(CardId, String, String)> = Vec::new();
    let mut i: usize = 0;
    while i < cards.len()
        invariant
            m == registry@,
            q@ == std_lowercase(query@),
            ks.len() == cards@.len(),
            models == ks.map_values(|k: u128| m[k]),
            forall|j: int| 0 <= j < cards@.len() ==> (#[trigger] cards@[j])@ == m[ks[j]],
            i <= cards@.len(),
            hit_views(hits@) == all_hits(m, models.take(i as int), q@),
        decreases cards@.len() - i,
    {
        let card = cards[i];
        let ghost before = hits@;
        let ghost c = card@;
        assert(c == models[i as int]);
        let title_lower = lowercase(card.title());
        if text_contains(title_lower.as_str(), q.as_str()) {
            let parent_name = match card.parent_id() {
                Some(p) => match registry.get_card(p) {
                    Ok(parent) => String::from_str(parent.title()),
                    Err(_) => String::from_str("Workspace"),
                },
                None => String::from_str("Workspace"),
            };
            hits.push((card.id(), String::from_str(card.title()), parent_name));
        }
        let ghost after_title = hits@;
        proof {
            assert(hit_views(after_title) =~= hit_views(before) + (if text_matches(c.title, q@) {
                seq![(c.id, c.title, parent_label(m, c))]
            } else {
                Seq::empty()
            }));
        }
        let notes = card.notes();
        let mut j: usize = 0;
        while j < notes.len()
            invariant
                q@ == std_lowercase(query@),
                crate::card::note_models(notes@) == c.notes,
                card@ == c,
                j <= notes@.len(),
                hit_views(hits@) == hit_views(after_title) + note_hits(c, c.notes.take(j as int), q@),
            decreases notes@.len() - j,
        {
            let note = &notes[j];
            assert(c.notes[j as int] == note@);
            let ghost mid = hits@;
            let t = lowercase(note.title());
            let b = lowercase(note.body());
            if text_contains(t.as_str(), q.as_str()) || text_contains(b.as_str(), q.as_str()) {
                let mut label = String::from_str(card.title());
                label.append(" (Note: ");
                label.append(note.title());
                label.append(")");
                let ghost lv = label@;
                assert(lv =~= c.title + " (Note: "@ + note@.title + ")"@);
                let kind = String::from_str("Notes");
                let ghost kv = kind@;
                hits.push((card.id(), label, kind));
                assert(hit_views(hits@) =~= hit_views(mid).push((c.id, lv, kv)));
            }
            proof {
                assert(c.notes.take(j + 1).drop_last() =~= c.notes.take(j as int));
                assert(c.notes.take(j + 1).last() == note@);
                assert(hit_views(hits@) =~= hit_views(after_title) + note_hits(c, c.notes.take(j + 1), q@));
            }
            j = j + 1;
        }
        proof {
            assert(c.notes.take(c.notes.len() as int) =~= c.notes);
            assert(models.take(i + 1).drop_last() =~= models.take(i as int));
            assert(models.take(i + 1).last() == c);
            assert(hit_views(hits@) =~= all_hits(m, models.take(i + 1), q@));
        }
        i = i + 1;
    }
    proof {
        assert(models.take(cards@.len() as int) =~= models);
    }
    let ghost all = hits@;
    hits.truncate(MAX_SEARCH_RESULTS);
    proof {
        assert(hit_views(hits@) =~= first_results(hit_views(all)));
        assert(ks.len() == ks.len());
    }
    hits
}

/// A note page gives a result for its card exactly when its title or its body,
/// lowercased, contains the query; the result names the card and the page and
/// is filed under "Notes". One result per matching page, in the pages' order.
pub proof fn lemma_note_results_are_matching_pages(c: CardModel, notes: Seq<NoteModel>, query: Seq<char>)
    ensures
        note_hits(c, notes, query).len() <= notes.len(),
        forall|h: (CardId, Seq<char>, Seq<char>)|
            note_hits(c, notes, query).contains(h) <==> exists|j: int|
                0 <= j < notes.len() && ((exists|p: int| #[trigger] occurs_at(std_lowercase(notes[j].title), query, p)) || (exists|p: int| #[trigger] occurs_at(std_lowercase(notes[j].body), query, p)))
                    && h == (c.id, c.title + " (Note: "@ + notes[j].title + ")"@, "Notes"@),
    decreases notes.len(),
{
    if notes.len() > 0 {
        let init = notes.drop_last();
        let n = notes.last();
        lemma_note_results_are_matching_pages(c, init, query);
        let matched = text_matches(n.title, query) || text_matches(n.body, query);
        let here = if matched {
            seq![(c.id, c.title + " (Note: "@ + n.title + ")"@, "Notes"@)]
        } else {
            Seq::<(CardId, Seq<char>, Seq<char>)>::empty()
        };
        assert(note_hits(c, notes, query) == note_hits(c, init, query) + here);
        assert forall|h: (CardId, Seq<char>, Seq<char>)|
            note_hits(c, notes, query).contains(h) <==> exists|j: int|
                0 <= j < notes.len() && ((exists|p: int| #[trigger] occurs_at(std_lowercase(notes[j].title), query, p)) || (exists|p: int| #[trigger] occurs_at(std_lowercase(notes[j].body), query, p)))
                    && h == (c.id, c.title + " (Note: "@ + notes[j].title + ")"@, "Notes"@) by {
            let all = note_hits(c, notes, query);
            let prev = note_hits(c, init, query);
            if all.contains(h) {
                let k = choose|k: int| 0 <= k < all.len() && all[k] == h;
                if k < prev.len() {
                    assert(prev[k] == h);
                    assert(prev.contains(h));
                    let j = choose|j: int|
                        0 <= j < init.len() && ((exists|p: int| #[trigger] occurs_at(std_lowercase(init[j].title), query, p)) || (exists|p: int| #[trigger] occurs_at(std_lowercase(init[j].body), query, p)))
                            && h == (c.id, c.title + " (Note: "@ + init[j].title + ")"@, "Notes"@);
                    assert(init[j] == notes[j]);
                } else {
                    assert(matched);
                    assert(notes[notes.len() - 1] == n);
                    if text_matches(n.title, query) {
                        let p = choose|p: int| occurs_at(std_lowercase(n.title), query, p);
                    } else {
                        let p = choose|p: int| occurs_at(std_lowercase(n.body), query, p);
                    }
                }
            }
            if exists|j: int|
                0 <= j < notes.len() && ((exists|p: int| #[trigger] occurs_at(std_lowercase(notes[j].title), query, p)) || (exists|p: int| #[trigger] occurs_at(std_lowercase(notes[j].body), query, p)))
                    && h == (c.id, c.title + " (Note: "@ + notes[j].title + ")"@, "Notes"@) {
                let j = choose|j: int|
                    0 <= j < notes.len() && ((exists|p: int| #[trigger] occurs_at(std_lowercase(notes[j].title), query, p)) || (exists|p: int| #[trigger] occurs_at(std_lowercase(notes[j].body), query, p)))
                        && h == (c.id, c.title + " (Note: "@ + notes[j].title + ")"@, "Notes"@);
                
                if j < init.len() {
                    assert(init[j] == notes[j]);
                    assert(prev.contains(h));
                    let k = choose|k: int| 0 <= k < prev.len() && prev[k] == h;
                    assert(all[k] == h);
                } else {
                    assert(notes[j] == n);
                                        assert(matched);
                    assert(all[prev.len() as int] == h);
                }
            }
        }
    }
}

/// The results for a list of cards are, in the cards' order, each card whose
/// title contains the query (with its parent's label) and the results of its
/// note pages; nothing else.
pub proof fn lemma_results_are_matching_cards_and_pages(
    m: Map<u128, CardModel>,
    cards: Seq<CardModel>,
    query: Seq<char>,
)
    ensures
        forall|h: (CardId, Seq<char>, Seq<char>)|
            all_hits(m, cards, query).contains(h) <==> exists|i: int|
                0 <= i < cards.len() && (((exists|p: int|
                    #[trigger] occurs_at(std_lowercase(cards[i].title), query, p)) && h == (
                    cards[i].id,
                    cards[i].title,
                    parent_label(m, cards[i]),
                )) || note_hits(cards[i], cards[i].notes, query).contains(h)),
    decreases cards.len(),
{
    if cards.len() > 0 {
        let init = cards.drop_last();
        let c = cards.last();
        lemma_results_are_matching_cards_and_pages(m, init, query);
        let own = if text_matches(c.title, query) {
            seq![(c.id, c.title, parent_label(m, c))]
        } else {
            Seq::<(CardId, Seq<char>, Seq<char>)>::empty()
        };
        let prev = all_hits(m, init, query);
        let notes = note_hits(c, c.notes, query);
        assert(all_hits(m, cards, query) == prev + (own + notes));
        assert forall|h: (CardId, Seq<char>, Seq<char>)|
            all_hits(m, cards, query).contains(h) <==> exists|i: int|
                0 <= i < cards.len() && (((exists|p: int|
                    #[trigger] occurs_at(std_lowercase(cards[i].title), query, p)) && h == (
                    cards[i].id,
                    cards[i].title,
                    parent_label(m, cards[i]),
                )) || note_hits(cards[i], cards[i].notes, query).contains(h)) by {
            let all = all_hits(m, cards, query);
            if all.contains(h) {
                let k = choose|k: int| 0 <= k < all.len() && all[k] == h;
                if k < prev.len() {
                    assert(prev[k] == h);
                    assert(prev.contains(h));
                    let i = choose|i: int|
                        0 <= i < init.len() && (((exists|p: int|
                            #[trigger] occurs_at(std_lowercase(init[i].title), query, p)) && h == (
                            init[i].id,
                            init[i].title,
                            parent_label(m, init[i]),
                        )) || note_hits(init[i], init[i].notes, query).contains(h));
                    assert(init[i] == cards[i]);
                } else if k < prev.len() + own.len() {
                    assert(cards[cards.len() - 1] == c);
                    assert(text_matches(c.title, query));
                    let p = choose|p: int| occurs_at(std_lowercase(c.title), query, p);
                } else {
                    assert(cards[cards.len() - 1] == c);
                    assert(notes[k - prev.len() - own.len()] == h);
                    assert(notes.contains(h));
                }
            }
            if exists|i: int|
                0 <= i < cards.len() && (((exists|p: int|
                    #[trigger] occurs_at(std_lowercase(cards[i].title), query, p)) && h == (
                    cards[i].id,
                    cards[i].title,
                    parent_label(m, cards[i]),
                )) || note_hits(cards[i], cards[i].notes, query).contains(h)) {
                let i = choose|i: int|
                    0 <= i < cards.len() && (((exists|p: int|
                        #[trigger] occurs_at(std_lowercase(cards[i].title), query, p)) && h == (
                        cards[i].id,
                        cards[i].title,
                        parent_label(m, cards[i]),
                    )) || note_hits(cards[i], cards[i].notes, query).contains(h));
                if i < init.len() {
                    assert(init[i] == cards[i]);
                    assert(prev.contains(h));
                    let k = choose|k: int| 0 <= k < prev.len() && prev[k] == h;
                    assert(all[k] == h);
                } else {
                    assert(cards[i] == c);
                    if notes.contains(h) {
                        let k = choose|k: int| 0 <= k < notes.len() && notes[k] == h;
                        assert(all[prev.len() + own.len() + k] == h);
                    } else {
                        assert(text_matches(c.title, query));
                        assert(all[prev.len() as int] == h);
                    }
                }
            }
        }
    }
}

/// A search keeps the first results, in order: all of them when there are at
/// most `MAX_SEARCH_RESULTS`, otherwise exactly that many.
pub proof fn lemma_first_results_are_a_prefix<T>(s: Seq<T>)
    ensures
        first_results(s).len() == if s.len() <= MAX_SEARCH_RESULTS {
            s.len()
        } else {
            MAX_SEARCH_RESULTS as nat
        },
        forall|i: int| 0 <= i < first_results(s).len() ==> #[trigger] first_results(s)[i] == s[i],
{
}

} // verus!
