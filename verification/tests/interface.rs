use kanban_planner::application::{build_card_preview_view, Command};
use kanban_planner::card::Card;
use kanban_planner::due_date::DueDate;
use kanban_planner::error::DomainError;
use kanban_planner::ids::CardId;
use kanban_planner::interface::{
    build_card_display_on, build_create_card_command, drop_zone_classes, due_date_string,
    reorder_ids, styled_drop_zone_classes, toggle_id, toolbar_action_icon_classes,
    toolbar_button_classes, toolbar_icon_button_classes, user_message_for_command_error,
    DraggedItemKind, DropZoneKind, DropZoneMode,
};
use kanban_planner::registry::CardRegistry;
use kanban_planner::search::search_workspace;
use kanban_planner::interface::{
    card_drag_payload, card_drop_commands, card_edit_command, dragged_card_id, reorder_if_changed,
    result_warning, startup_registry,
};

#[test]
fn logic_reorder_ids_moves_item_to_target_index() {
    let reordered = reorder_ids(&[1, 2, 3, 4], 3, 1);
    assert_eq!(reordered, vec![1, 3, 2, 4]);
}

#[test]
fn logic_reorder_ids_clamps_insertion_to_end() {
    let reordered = reorder_ids(&[1, 2, 3], 1, 99);
    assert_eq!(reordered, vec![2, 3, 1]);
}

#[test]
fn actions_reorder_ids_moves_item_to_target_index() {
    let reordered = reorder_ids(&[1, 2, 3, 4], 3, 1);
    assert_eq!(reordered, vec![1, 3, 2, 4]);
}

#[test]
fn actions_reorder_ids_clamps_insertion_to_end() {
    let reordered = reorder_ids(&[1, 2, 3], 1, 99);
    assert_eq!(reordered, vec![2, 3, 1]);
}

#[test]
fn reorder_ids_doc_example_and_absent_item() {
    assert_eq!(reorder_ids(&[1, 2, 3], 3, 0), vec![3, 1, 2]);
    assert_eq!(reorder_ids(&[1, 2], 9, 1), vec![1, 9, 2]);
    assert_eq!(reorder_ids(&[], 5, 3), vec![5]);
}

#[test]
fn test_styled_drop_zone_classes_for_board_surface() {
    let classes =
        styled_drop_zone_classes(DropZoneMode::BoardSurface, false, DraggedItemKind::Nothing);
    assert!(classes.contains("min-h-[3.25rem]"));
    assert!(classes.contains("rounded-2xl"));
}

#[test]
fn test_styled_drop_zone_classes_for_card_lane() {
    let classes =
        styled_drop_zone_classes(DropZoneMode::CardLane, false, DraggedItemKind::Nothing);
    assert!(classes.contains("app-drop-slot-lane"));
}

#[test]
fn drop_zone_states() {
    assert_eq!(
        drop_zone_classes(DropZoneKind::Board, true, DraggedItemKind::Nothing),
        "app-drop-zone app-drop-zone--board app-drop-zone--hidden"
    );
    assert_eq!(
        drop_zone_classes(DropZoneKind::Card, true, DraggedItemKind::Card),
        "app-drop-zone app-drop-zone--card app-drop-zone--active"
    );
    assert_eq!(
        drop_zone_classes(DropZoneKind::Card, false, DraggedItemKind::Card),
        "app-drop-zone app-drop-zone--card app-drop-zone--dragging"
    );
    assert_eq!(
        styled_drop_zone_classes(DropZoneMode::BoardSurface, true, DraggedItemKind::Card),
        "app-drop-zone app-drop-zone--board app-drop-zone--active min-h-[3.25rem] rounded-2xl"
    );
}

#[test]
fn toolbar_classes() {
    assert_eq!(toolbar_button_classes(), "app-bar-button");
    assert_eq!(toolbar_icon_button_classes(), "app-bar-button");
    assert_eq!(toolbar_action_icon_classes(), "app-bar-button-icon");
}

#[test]
fn create_card_command_depends_on_parent() {
    let parent = CardId(4);
    match build_create_card_command("T".into(), None, Some(parent)).unwrap() {
        Command::CreateChildCard { title, description, parent_id } => {
            assert_eq!(title, "T");
            assert_eq!(description, None);
            assert_eq!(parent_id, parent);
        }
        other => panic!("unexpected command: {:?}", other),
    }
    assert!(matches!(
        build_create_card_command("T".into(), Some("d".into()), None).unwrap(),
        Command::CreateWorkspaceChildCard { .. }
    ));
}

#[test]
fn due_date_text_and_error_message() {
    let due = DueDate::parse("2023-12-31").unwrap();
    assert_eq!(due_date_string(Some(&due)), "2023-12-31");
    assert_eq!(due_date_string(None), "");
    assert_eq!(user_message_for_command_error(&DomainError::CardHasChildren),
        "Cannot delete a card that still has children; choose a DeleteStrategy");
}

#[test]
fn toggling_an_identifier() {
    let mut values = vec![1, 2, 3, 2];
    toggle_id(&mut values, 2);
    assert_eq!(values, vec![1, 3]);
    toggle_id(&mut values, 7);
    assert_eq!(values, vec![1, 3, 7]);
}

#[test]
fn card_display_on_a_given_day() {
    let mut registry = CardRegistry::new();
    let ws = registry.workspace_card_id().unwrap();
    let project = registry.create_child_card("Project".into(), ws).unwrap();
    registry.create_child_card("Task".into(), project).unwrap();
    registry.set_due_date(project, DueDate::parse("2026-03-18").unwrap()).unwrap();
    let preview = build_card_preview_view(project, &registry).unwrap();
    let card: &Card = registry.get_card(project).unwrap();
    let display = build_card_display_on(card, Some(&preview), "2026-03-19");
    assert_eq!(display.id, project);
    assert_eq!(display.title, "Project");
    assert_eq!(display.due_date.as_deref(), Some("2026-03-18"));
    assert!(display.is_overdue);
    assert_eq!(display.preview_items, vec!["Task".to_string()]);
    let later = build_card_display_on(card, None, "2026-03-18");
    assert!(!later.is_overdue);
    assert!(later.preview_items.is_empty());
}

#[test]
fn creation_form_trims_its_fields() {
    match kanban_planner::interface::card_creation_command("  Plan ", "   ", None) {
        Command::CreateCard { title, description, parent_id } => {
            assert_eq!(title, "Plan");
            assert_eq!(description, None);
            assert_eq!(parent_id, None);
        }
        other => panic!("unexpected command: {:?}", other),
    }
    match kanban_planner::interface::card_creation_command("X", " about ", Some(CardId(3))) {
        Command::CreateCard { description, parent_id, .. } => {
            assert_eq!(description.as_deref(), Some("about"));
            assert_eq!(parent_id, Some(CardId(3)));
        }
        other => panic!("unexpected command: {:?}", other),
    }
}

#[test]
fn edit_form_sends_only_changed_details() {
    let id = CardId(8);
    assert!(card_edit_command(id, "A", "A", "d", "d", "", "").is_none());
    match card_edit_command(id, "A", " B ", "d", "  ", "", "2030-2-1") {
        Some(Command::UpdateCardDetails { id: i, title, description, due_date }) => {
            assert_eq!(i, id);
            assert_eq!(title.as_deref(), Some("B"));
            assert_eq!(description, Some(None));
            assert_eq!(due_date.flatten().map(|d| d.as_str().to_string()), Some("2030-02-01".to_string()));
        }
        other => panic!("unexpected command: {:?}", other),
    }
    match card_edit_command(id, "A", "A", "d", "d", "2030-01-01", "not a date") {
        Some(Command::UpdateCardDetails { title, description, due_date, .. }) => {
            assert_eq!(title, None);
            assert_eq!(description, None);
            assert_eq!(due_date, Some(None));
        }
        other => panic!("unexpected command: {:?}", other),
    }
}

#[test]
fn search_finds_titles_and_notes_ignoring_case() {
    let mut registry = CardRegistry::new();
    let ws = registry.workspace_card_id().unwrap();
    let project = registry.create_child_card("Garden Project".into(), ws).unwrap();
    let other = registry.create_child_card("Kitchen".into(), ws).unwrap();
    let note = registry.add_note_page(other, "Shopping".into()).unwrap();
    registry.save_note_page_body(other, note, "buy GARDEN hose".into()).unwrap();
    let mut hits = search_workspace(&registry, "garden");
    hits.sort_by(|a, b| a.1.cmp(&b.1));
    assert_eq!(
        hits,
        vec![
            (project, "Garden Project".to_string(), "My Workspace".to_string()),
            (other, "Kitchen (Note: Shopping)".to_string(), "Notes".to_string()),
        ]
    );
    assert!(search_workspace(&registry, "").is_empty());
    assert!(search_workspace(&registry, "nothing like this").is_empty());
    let ws_hits = search_workspace(&registry, "WORKSPACE");
    assert_eq!(ws_hits, vec![(ws, "My Workspace".to_string(), "Workspace".to_string())]);
}

#[test]
fn search_keeps_at_most_ten_results() {
    let mut registry = CardRegistry::new();
    let ws = registry.workspace_card_id().unwrap();
    for i in 0..15 {
        registry.create_child_card(format!("Task {i}"), ws).unwrap();
    }
    assert_eq!(search_workspace(&registry, "task").len(), 10);
}

#[test]
fn drag_payload_names_card_and_parent() {
    let payload = card_drag_payload(CardId(0), CardId(31));
    assert_eq!(
        payload,
        "card:00000000000000000000000000:parent:0000000000000000000000000Z"
    );
}

#[test]
fn dragged_card_id_reads_back_the_payload_of_a_card() {
    for _ in 0..20 {
        let card = CardId::new();
        let parent = CardId::new();
        assert_eq!(dragged_card_id(&card_drag_payload(card, parent)), Some(card));
    }
    assert_eq!(
        dragged_card_id("card:21850M2GA1850M2GA1850M2GA1"),
        Some(CardId(0x4141_4141_4141_4141_4141_4141_4141_4141))
    );
}

#[test]
fn dragged_card_id_refuses_other_payloads() {
    assert_eq!(dragged_card_id(""), None);
    assert_eq!(dragged_card_id("card:"), None);
    assert_eq!(dragged_card_id("card"), None);
    assert_eq!(dragged_card_id("bucket:00000000000000000000000000"), None);
    assert_eq!(dragged_card_id("Card:00000000000000000000000000"), None);
    assert_eq!(dragged_card_id("card:not-an-id:parent:00000000000000000000000000"), None);
    assert_eq!(dragged_card_id("card::00000000000000000000000000"), None);
}

#[test]
fn reorder_if_changed_skips_a_drag_that_keeps_the_order() {
    assert_eq!(reorder_if_changed(&[1, 2, 3], 2, 1), None);
    assert_eq!(reorder_if_changed(&[1, 2, 3], 3, 9), None);
    assert_eq!(reorder_if_changed(&[], 7, 0), Some(vec![7]));
}

#[test]
fn reorder_if_changed_gives_the_new_order() {
    assert_eq!(reorder_if_changed(&[1, 2, 3], 3, 0), Some(vec![3, 1, 2]));
    assert_eq!(reorder_if_changed(&[1, 2], 5, 0), Some(vec![5, 1, 2]));
}

#[test]
fn card_drop_commands_move_a_card_from_another_board_first() {
    let mut registry = CardRegistry::new();
    let workspace = registry.workspace_card_id().unwrap();
    let project = registry.create_child_card("Project".into(), workspace).unwrap();
    let task = registry.create_child_card("Task".into(), project).unwrap();

    let commands = card_drop_commands(&registry, task, workspace, 1);
    assert_eq!(commands.len(), 2);
    assert!(matches!(
        commands[0],
        Command::ReparentCard { card_id, new_parent_id } if card_id == task && new_parent_id == workspace
    ));
    assert!(matches!(
        commands[1],
        Command::DropChildAtPosition { parent_id, card_id, target_index: 1 }
            if parent_id == workspace && card_id == task
    ));
}

#[test]
fn card_drop_commands_only_place_a_card_already_on_the_board() {
    let mut registry = CardRegistry::new();
    let workspace = registry.workspace_card_id().unwrap();
    let project = registry.create_child_card("Project".into(), workspace).unwrap();

    for card in [project, workspace, CardId(42)] {
        let commands = card_drop_commands(&registry, card, workspace, 0);
        assert_eq!(commands.len(), 1);
        assert!(matches!(
            commands[0],
            Command::DropChildAtPosition { parent_id, card_id, target_index: 0 }
                if parent_id == workspace && card_id == card
        ));
    }
}

#[test]
fn result_warning_shows_the_error_message() {
    assert_eq!(result_warning(&Ok(())), None);
    assert_eq!(
        result_warning(&Err(DomainError::EmptyTitle)),
        Some("Card title cannot be empty or blank".to_string())
    );
    assert_eq!(
        result_warning(&Err(DomainError::CycleDetected)),
        Some("Reparenting would create a cycle in the card tree".to_string())
    );
}

#[test]
fn startup_registry_uses_the_saved_workspace() {
    let mut saved = CardRegistry::new();
    let workspace = saved.workspace_card_id().unwrap();
    saved.create_child_card("Project".into(), workspace).unwrap();

    let (registry, warning) = startup_registry(Ok(Some(saved.clone())));
    assert_eq!(registry, saved);
    assert_eq!(warning, None);
}

#[test]
fn startup_registry_starts_fresh_without_a_save() {
    let (registry, warning) = startup_registry(Ok(None));
    assert_eq!(registry.workspace_card().unwrap().title(), "My Workspace");
    assert_eq!(registry.workspace_child_count(), 0);
    assert_eq!(warning, None);
}

#[test]
fn startup_registry_warns_when_loading_failed() {
    let (registry, warning) =
        startup_registry(Err(DomainError::InvalidOperation("storage unavailable".into())));
    assert_eq!(registry.workspace_child_count(), 0);
    assert_eq!(warning, Some("Invalid operation: storage unavailable".to_string()));
}

#[test]
fn toggling_an_id_twice_gives_back_the_list() {
    let mut values = vec![4, 9];
    toggle_id(&mut values, 7);
    assert_eq!(values, vec![4, 9, 7]);
    toggle_id(&mut values, 7);
    assert_eq!(values, vec![4, 9]);
}

#[test]
fn reordering_twice_to_the_same_place_changes_nothing_more() {
    let once = reorder_ids(&[5, 1, 2, 3], 1, 2);
    assert_eq!(once, vec![5, 2, 1, 3]);
    assert_eq!(reorder_ids(&once, 1, 2), once);
}

#[test]
fn reordering_keeps_repeated_other_ids() {
    assert_eq!(reorder_ids(&[1, 2, 2, 3], 3, 0), vec![3, 1, 2, 2]);
}

#[test]
fn reorder_ids_moves_card_ids_too() {
    let a = CardId(1);
    let b = CardId(2);
    let c = CardId(3);
    assert_eq!(reorder_ids(&[a, b, c], c, 0), vec![c, a, b]);
}
