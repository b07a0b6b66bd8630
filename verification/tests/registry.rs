use kanban_planner::card::Card;
use kanban_planner::due_date::DueDate;
use kanban_planner::error::DomainError;
use kanban_planner::ids::{BucketId, CardId};
use kanban_planner::registry::{CardRegistry, DeleteStrategy};

fn child_ids(registry: &CardRegistry, parent: CardId) -> Vec<CardId> {
    registry
        .get_children(parent)
        .unwrap()
        .iter()
        .map(|card| card.id())
        .collect()
}

fn with_extra(registry: &CardRegistry, extra: Card) -> CardRegistry {
    let mut cards: Vec<Card> = registry.cards().into_iter().cloned().collect();
    cards.push(extra);
    CardRegistry::from_cards(cards)
}

#[test]
fn test_registry_starts_with_workspace() {
    let registry = CardRegistry::new();
    let workspace = registry.workspace_card().unwrap();
    assert_eq!(workspace.title(), "My Workspace");
    assert!(workspace.parent_id().is_none());
}

#[test]
fn test_create_child_card_adds_ordered_child() {
    let mut registry = CardRegistry::new();
    let workspace_id = registry.workspace_card_id().unwrap();
    let child_id = registry
        .create_child_card("Project".into(), workspace_id)
        .unwrap();

    let children = registry.get_children(workspace_id).unwrap();
    assert_eq!(children.len(), 1);
    assert_eq!(children[0].id(), child_id);
}

#[test]
fn test_reorder_children_updates_order() {
    let mut registry = CardRegistry::new();
    let workspace_id = registry.workspace_card_id().unwrap();
    let first = registry
        .create_child_card("First".into(), workspace_id)
        .unwrap();
    let second = registry
        .create_child_card("Second".into(), workspace_id)
        .unwrap();

    registry
        .reorder_children(workspace_id, vec![second, first])
        .unwrap();

    assert_eq!(child_ids(&registry, workspace_id), vec![second, first]);
}

#[test]
fn test_drop_child_at_position_reorders_existing_child() {
    let mut registry = CardRegistry::new();
    let workspace_id = registry.workspace_card_id().unwrap();
    let first = registry
        .create_child_card("First".into(), workspace_id)
        .unwrap();
    let second = registry
        .create_child_card("Second".into(), workspace_id)
        .unwrap();
    let third = registry
        .create_child_card("Third".into(), workspace_id)
        .unwrap();

    registry
        .drop_child_at_position(workspace_id, third, 0)
        .unwrap();

    assert_eq!(child_ids(&registry, workspace_id), vec![third, first, second]);
}

#[test]
fn test_drop_child_at_position_rejects_non_child_card() {
    let mut registry = CardRegistry::new();
    let workspace_id = registry.workspace_card_id().unwrap();
    let project_id = registry
        .create_child_card("Project".into(), workspace_id)
        .unwrap();
    let task_id = registry
        .create_child_card("Task".into(), project_id)
        .unwrap();

    assert!(matches!(
        registry.drop_child_at_position(workspace_id, task_id, 0),
        Err(DomainError::InvalidOperation(message))
            if message.contains("is not a child of parent")
    ));
}

#[test]
fn test_drop_child_at_position_clamps_target_index_to_end() {
    let mut registry = CardRegistry::new();
    let workspace_id = registry.workspace_card_id().unwrap();
    let first = registry
        .create_child_card("First".into(), workspace_id)
        .unwrap();
    let second = registry
        .create_child_card("Second".into(), workspace_id)
        .unwrap();
    let third = registry
        .create_child_card("Third".into(), workspace_id)
        .unwrap();

    registry
        .drop_child_at_position(workspace_id, first, usize::MAX)
        .unwrap();

    assert_eq!(child_ids(&registry, workspace_id), vec![second, third, first]);
}

#[test]
fn test_cycle_detection() {
    let mut registry = CardRegistry::new();
    let workspace_id = registry.workspace_card_id().unwrap();
    let child_id = registry
        .create_child_card("Child".into(), workspace_id)
        .unwrap();
    let grandchild_id = registry
        .create_child_card("Grandchild".into(), child_id)
        .unwrap();

    assert!(matches!(
        registry.reparent_card(child_id, grandchild_id),
        Err(DomainError::CycleDetected)
    ));
}

#[test]
fn test_delete_workspace_is_rejected() {
    let mut registry = CardRegistry::new();
    let workspace_id = registry.workspace_card_id().unwrap();

    assert!(matches!(
        registry.delete_card(workspace_id, DeleteStrategy::CascadeDelete),
        Err(DomainError::InvalidOperation(_))
    ));
}

#[test]
fn test_delete_strategy_reparent() {
    let mut registry = CardRegistry::new();
    let workspace_id = registry.workspace_card_id().unwrap();
    let parent_id = registry
        .create_child_card("Parent".into(), workspace_id)
        .unwrap();
    let child_id = registry
        .create_child_card("Child".into(), parent_id)
        .unwrap();

    registry
        .delete_card(parent_id, DeleteStrategy::ReparentToGrandparent)
        .unwrap();

    assert_eq!(
        registry.get_card(child_id).unwrap().parent_id(),
        Some(workspace_id)
    );
}

#[test]
fn test_get_children_fails_on_missing_child() {
    let mut registry = CardRegistry::new();
    let workspace_id = registry.workspace_card_id().unwrap();
    registry
        .get_card_mut(workspace_id)
        .unwrap()
        .add_child(CardId::new());

    assert!(matches!(
        registry.get_children(workspace_id),
        Err(DomainError::CardNotFound(_))
    ));
}

#[test]
fn test_validate_rejects_multiple_top_level_cards() {
    let registry = CardRegistry::new();
    let extra_top_level_card = Card::new_root("Extra".into()).unwrap();
    let registry = with_extra(&registry, extra_top_level_card);

    assert!(matches!(
        registry.validate(),
        Err(DomainError::InvalidOperation(message))
            if message.contains("exactly one workspace card")
    ));
}

#[test]
fn test_validate_rejects_orphan_nested_card() {
    let registry = CardRegistry::new();
    let workspace_id = registry.workspace_card_id().unwrap();
    let child = Card::new_child("Orphan".into(), workspace_id, BucketId(0)).unwrap();
    let registry = with_extra(&registry, child);

    assert!(matches!(
        registry.validate(),
        Err(DomainError::InvalidOperation(message))
            if message.contains("is not referenced by its parent")
                || message.contains("missing child reference")
    ));
}

#[test]
fn validation_counts_the_workspace_cards() {
    let registry = CardRegistry::new();
    let registry = with_extra(&registry, Card::new_root("Extra".into()).unwrap());
    assert_eq!(
        registry.validate(),
        Err(DomainError::InvalidOperation(
            "Registry must contain exactly one workspace card, found 2".into()
        ))
    );
    let empty = CardRegistry::from_cards(vec![]);
    assert_eq!(
        empty.validate(),
        Err(DomainError::InvalidOperation(
            "Registry must contain exactly one workspace card, found 0".into()
        ))
    );
}

#[test]
fn validation_rejects_a_parent_cycle() {
    let (a, b) = (CardId(10), CardId(11));
    let cards = vec![
        Card::from_parts(CardId(1), "W".into(), None, None, vec![], vec![], None, None, vec![]),
        Card::from_parts(a, "A".into(), None, Some(b), vec![b], vec![], None, None, vec![]),
        Card::from_parts(b, "B".into(), None, Some(a), vec![a], vec![], None, None, vec![]),
    ];
    let registry = CardRegistry::from_cards(cards);
    assert!(matches!(registry.validate(), Err(DomainError::InvalidOperation(_))));
}

#[test]
fn every_operation_leaves_a_registry_that_validates() {
    let mut registry = CardRegistry::new();
    registry.validate().unwrap();
    let ws = registry.workspace_card_id().unwrap();
    let a = registry.create_workspace_child_card("A".into()).unwrap();
    let b = registry.create_child_card("B".into(), ws).unwrap();
    let c = registry.create_card("C".into(), Some("about C".into()), Some(a)).unwrap();
    let d = registry.create_card("D".into(), None, None).unwrap();
    registry.validate().unwrap();
    registry.rename_card(c, "C2".into()).unwrap();
    registry.set_card_description(c, None).unwrap();
    let note = registry.add_note_page(c, "Notes".into()).unwrap();
    registry.rename_note_page(c, note, "More".into()).unwrap();
    registry.save_note_page_body(c, note, "body".into()).unwrap();
    registry.set_due_date(c, DueDate::parse("2030-01-01").unwrap()).unwrap();
    registry.validate().unwrap();
    registry.reparent_card(c, b).unwrap();
    registry.validate().unwrap();
    registry.drop_child_at_position(ws, d, 0).unwrap();
    registry.reorder_children(ws, vec![a, b, d]).unwrap();
    registry.delete_note_page(c, note).unwrap();
    registry.clear_due_date(c).unwrap();
    registry.validate().unwrap();
    registry.delete_card(b, DeleteStrategy::ReparentToGrandparent).unwrap();
    registry.validate().unwrap();
    assert_eq!(registry.get_card(c).unwrap().parent_id(), Some(ws));
    assert_eq!(child_ids(&registry, ws), vec![a, d, c]);
    registry.delete_card(a, DeleteStrategy::CascadeDelete).unwrap();
    registry.validate().unwrap();
    assert_eq!(registry.workspace_child_count(), 2);
}

#[test]
fn reparent_moves_card_to_end_of_new_parent() {
    let mut registry = CardRegistry::new();
    let ws = registry.workspace_card_id().unwrap();
    let a = registry.create_child_card("A".into(), ws).unwrap();
    let b = registry.create_child_card("B".into(), ws).unwrap();
    let x = registry.create_child_card("X".into(), b).unwrap();
    registry.reparent_card(a, b).unwrap();
    assert_eq!(child_ids(&registry, ws), vec![b]);
    assert_eq!(child_ids(&registry, b), vec![x, a]);
    assert_eq!(registry.get_card(a).unwrap().parent_id(), Some(b));
    registry.reparent_card(a, b).unwrap();
    assert_eq!(child_ids(&registry, b), vec![x, a]);
}

#[test]
fn reparent_refusals() {
    let mut registry = CardRegistry::new();
    let ws = registry.workspace_card_id().unwrap();
    let a = registry.create_child_card("A".into(), ws).unwrap();
    assert_eq!(
        registry.reparent_card(ws, a),
        Err(DomainError::InvalidOperation("The workspace root cannot be reparented".into()))
    );
    assert_eq!(registry.reparent_card(a, a), Err(DomainError::CycleDetected));
    let missing = CardId(5);
    assert_eq!(registry.reparent_card(a, missing), Err(DomainError::CardNotFound(missing)));
    assert_eq!(registry.reparent_card(missing, a), Err(DomainError::CardNotFound(missing)));
    registry.validate().unwrap();
}

#[test]
fn delete_refusals_and_cascade() {
    let mut registry = CardRegistry::new();
    let ws = registry.workspace_card_id().unwrap();
    let a = registry.create_child_card("A".into(), ws).unwrap();
    let b = registry.create_child_card("B".into(), a).unwrap();
    let c = registry.create_child_card("C".into(), b).unwrap();
    assert_eq!(
        registry.delete_card(ws, DeleteStrategy::Reject),
        Err(DomainError::InvalidOperation("The workspace card cannot be deleted.".into()))
    );
    assert_eq!(registry.delete_card(a, DeleteStrategy::Reject), Err(DomainError::CardHasChildren));
    let missing = CardId(3);
    assert_eq!(registry.delete_card(missing, DeleteStrategy::Reject), Err(DomainError::CardNotFound(missing)));
    registry.delete_card(c, DeleteStrategy::Reject).unwrap();
    assert!(registry.get_card(c).is_err());
    registry.delete_card(a, DeleteStrategy::CascadeDelete).unwrap();
    assert!(registry.get_card(a).is_err());
    assert!(registry.get_card(b).is_err());
    assert_eq!(registry.workspace_child_count(), 0);
    assert_eq!(registry.cards().len(), 1);
}

#[test]
fn creation_refusals() {
    let mut registry = CardRegistry::new();
    let missing = CardId(99);
    assert_eq!(registry.create_child_card("X".into(), missing), Err(DomainError::CardNotFound(missing)));
    assert_eq!(registry.create_workspace_child_card("  ".into()), Err(DomainError::EmptyTitle));
    assert_eq!(registry.cards().len(), 1);
    let empty = CardRegistry::from_cards(vec![]);
    let mut empty = empty;
    assert_eq!(
        empty.create_workspace_child_card("X".into()),
        Err(DomainError::InvalidOperation("Workspace card is missing from the registry".into()))
    );
}

#[test]
fn update_card_details_applies_given_fields() {
    let mut registry = CardRegistry::new();
    let ws = registry.workspace_card_id().unwrap();
    let a = registry.create_card("A".into(), Some("old".into()), Some(ws)).unwrap();
    registry
        .update_card_details(a, Some("A2".into()), Some(None), Some(Some(DueDate::parse("2031-02-03").unwrap())))
        .unwrap();
    let card = registry.get_card(a).unwrap();
    assert_eq!(card.title(), "A2");
    assert_eq!(card.description(), None);
    assert_eq!(card.due_date().map(|d| d.as_str()), Some("2031-02-03"));
    assert_eq!(registry.update_card_details(a, Some(" ".into()), Some(Some("x".into())), None), Err(DomainError::EmptyTitle));
    assert_eq!(registry.get_card(a).unwrap().description(), None);
}

#[test]
fn new_registry_with_given_workspace_id() {
    let id = CardId(42);
    let registry = CardRegistry::new_with_workspace_id(id);
    assert_eq!(registry.workspace_card_id(), Ok(id));
    assert_eq!(registry.workspace_child_count(), 0);
    registry.validate().unwrap();
}

#[test]
fn default_registry_holds_a_new_workspace() {
    let registry = CardRegistry::default();
    assert_eq!(registry.workspace_card().unwrap().title(), "My Workspace");
    assert_eq!(registry.workspace_child_count(), 0);
    assert!(registry.validate().is_ok());
}

#[test]
fn validation_names_the_orphan_and_its_parent() {
    let registry = CardRegistry::new();
    let workspace_id = registry.workspace_card_id().unwrap();
    let child = Card::new_child("Orphan".into(), workspace_id, BucketId(0)).unwrap();
    let orphan_id = child.id();
    let registry = with_extra(&registry, child);
    assert_eq!(
        registry.validate(),
        Err(DomainError::InvalidOperation(format!(
            "Parent {} is missing child reference to {}",
            workspace_id.to_text(),
            orphan_id.to_text()
        )))
    );
}

#[test]
fn deleting_in_a_registry_with_two_workspaces_is_refused() {
    let registry = CardRegistry::new();
    let mut registry = with_extra(&registry, Card::new_root("Extra".into()).unwrap());
    let any = registry.cards()[0].id();
    let before = registry.clone();
    assert!(matches!(
        registry.delete_card(any, DeleteStrategy::CascadeDelete),
        Err(DomainError::InvalidOperation(_))
    ));
    assert_eq!(registry, before);
}

#[test]
fn deleting_a_leaf_in_a_malformed_registry_takes_it_out_of_its_parent() {
    let mut registry = CardRegistry::new();
    let workspace_id = registry.workspace_card_id().unwrap();
    let kept = registry.create_child_card("Kept".into(), workspace_id).unwrap();
    let gone = registry.create_child_card("Gone".into(), workspace_id).unwrap();
    // A card that names the workspace as parent but is not listed by it.
    let registry_cards = with_extra(&registry, Card::new_child("Orphan".into(), workspace_id, BucketId(0)).unwrap());
    let mut registry = registry_cards;
    assert!(registry.validate().is_err());

    registry.delete_card(gone, DeleteStrategy::CascadeDelete).unwrap();
    assert!(registry.get_card(gone).is_err());
    assert_eq!(child_ids(&registry, workspace_id), vec![kept]);
}

#[test]
fn children_carry_the_ids_their_parent_lists() {
    let mut registry = CardRegistry::new();
    let workspace_id = registry.workspace_card_id().unwrap();
    let a = registry.create_child_card("A".into(), workspace_id).unwrap();
    let b = registry.create_child_card("B".into(), workspace_id).unwrap();
    assert_eq!(child_ids(&registry, workspace_id), vec![a, b]);
}

fn replace(registry: &CardRegistry, card: Card) -> CardRegistry {
    let mut cards: Vec<Card> = registry
        .cards()
        .into_iter()
        .filter(|c| c.id() != card.id())
        .cloned()
        .collect();
    cards.push(card);
    CardRegistry::from_cards(cards)
}

#[test]
fn cascading_delete_in_a_malformed_registry_walks_the_lists_of_children() {
    let mut registry = CardRegistry::new();
    let workspace_id = registry.workspace_card_id().unwrap();
    let a = registry.create_child_card("A".into(), workspace_id).unwrap();
    let b = registry.create_child_card("B".into(), a).unwrap();
    let orphan = Card::new_child("Orphan".into(), workspace_id, BucketId(0)).unwrap();
    let orphan_id = orphan.id();
    let mut registry = with_extra(&registry, orphan);
    assert!(registry.validate().is_err());

    registry.delete_card(a, DeleteStrategy::CascadeDelete).unwrap();
    assert!(registry.get_card(a).is_err());
    assert!(registry.get_card(b).is_err());
    assert!(registry.get_card(orphan_id).is_ok());
    assert_eq!(registry.get_card(workspace_id).unwrap().children_ids().to_vec(), Vec::<CardId>::new());
}

#[test]
fn cascading_delete_stops_at_a_missing_child_and_keeps_what_it_deleted() {
    let mut registry = CardRegistry::new();
    let workspace_id = registry.workspace_card_id().unwrap();
    let a = registry.create_child_card("A".into(), workspace_id).unwrap();
    let b = registry.create_child_card("B".into(), a).unwrap();
    let missing = CardId(99);
    let card_a = registry.get_card(a).unwrap();
    let tampered = Card::from_parts(
        a,
        "A".into(),
        None,
        Some(workspace_id),
        vec![b, missing],
        vec![],
        None,
        None,
        vec![],
    );
    assert_eq!(card_a.children_ids(), &[b]);
    let mut registry = replace(&registry, tampered);

    assert_eq!(
        registry.delete_card(a, DeleteStrategy::CascadeDelete),
        Err(DomainError::CardNotFound(missing))
    );
    assert!(registry.get_card(b).is_err());
    assert_eq!(registry.get_card(a).unwrap().children_ids(), &[missing]);
}

#[test]
fn moving_children_up_in_a_malformed_registry_goes_one_child_at_a_time() {
    let mut registry = CardRegistry::new();
    let workspace_id = registry.workspace_card_id().unwrap();
    let a = registry.create_child_card("A".into(), workspace_id).unwrap();
    let b = registry.create_child_card("B".into(), a).unwrap();
    let c = registry.create_child_card("C".into(), a).unwrap();
    let orphan = Card::new_child("Orphan".into(), workspace_id, BucketId(0)).unwrap();
    let mut registry = with_extra(&registry, orphan);
    assert!(registry.validate().is_err());

    registry.delete_card(a, DeleteStrategy::ReparentToGrandparent).unwrap();
    assert!(registry.get_card(a).is_err());
    assert_eq!(registry.get_card(workspace_id).unwrap().children_ids(), &[b, c]);
    assert_eq!(registry.get_card(b).unwrap().parent_id(), Some(workspace_id));
    assert_eq!(registry.get_card(c).unwrap().parent_id(), Some(workspace_id));
}
