use kanban_planner::application::{
    build_board_view, build_card_preview_view, build_card_view, check_applicable, execute,
    execute_recorded, Command,
};
use kanban_planner::card::Card;
use kanban_planner::logging::DiagnosticsBuffer;
use kanban_planner::error::DomainError;
use kanban_planner::ids::CardId;
use kanban_planner::due_date::DueDate;
use kanban_planner::ids::NotePageId;
use kanban_planner::registry::{CardRegistry, DeleteStrategy};

#[test]
fn command_name_is_correct() {
    let command = Command::DropChildAtPosition {
        parent_id: CardId::default(),
        card_id: CardId::default(),
        target_index: 2,
    };

    assert_eq!(command.name(), "DropChildAtPosition");
}

#[test]
fn command_apply_works() {
    let mut registry = CardRegistry::new();
    let command = Command::CreateWorkspaceChildCard {
        title: "Top Level Board".into(),
        description: None,
    };

    command.apply(&mut registry).unwrap();

    assert_eq!(registry.workspace_child_count(), 1);
}

#[test]
fn test_execute_create_workspace_child() {
    let mut registry = CardRegistry::new();
    execute(
        Command::CreateCard {
            title: "Top Level Board".into(),
            description: None,
            parent_id: None,
        },
        &mut registry,
    )
    .unwrap();

    assert_eq!(registry.workspace_child_count(), 1);
}

#[test]
fn test_board_view_returns_ordered_children() {
    let mut registry = CardRegistry::new();
    let workspace_id = registry.workspace_card_id().unwrap();
    let first_id = registry
        .create_card("First".into(), None, Some(workspace_id))
        .unwrap();
    let second_id = registry
        .create_card("Second".into(), None, Some(workspace_id))
        .unwrap();

    let view = build_board_view(workspace_id, &registry).unwrap();
    let ids: Vec<CardId> = view.children.iter().map(|card| card.id()).collect();
    assert_eq!(ids, vec![first_id, second_id]);
}

#[test]
fn test_card_preview_returns_immediate_children_only() {
    let mut registry = CardRegistry::new();
    let workspace_id = registry.workspace_card_id().unwrap();
    let project_id = registry
        .create_card("Project".into(), None, Some(workspace_id))
        .unwrap();
    let task_id = registry
        .create_card("Task".into(), None, Some(project_id))
        .unwrap();

    let preview = build_card_preview_view(project_id, &registry).unwrap();
    assert_eq!(preview.card.id(), project_id);
    assert_eq!(preview.children.len(), 1);
    assert_eq!(preview.children[0].id(), task_id);
}

#[test]
fn test_execute_drop_child_at_position() {
    let mut registry = CardRegistry::new();
    let workspace_id = registry.workspace_card_id().unwrap();
    let first = registry
        .create_card("First".into(), None, Some(workspace_id))
        .unwrap();
    let second = registry
        .create_card("Second".into(), None, Some(workspace_id))
        .unwrap();
    let third = registry
        .create_card("Third".into(), None, Some(workspace_id))
        .unwrap();

    execute(
        Command::DropChildAtPosition {
            parent_id: workspace_id,
            card_id: third,
            target_index: 0,
        },
        &mut registry,
    )
    .unwrap();

    let ids: Vec<CardId> = registry
        .get_children(workspace_id)
        .unwrap()
        .iter()
        .map(|card| card.id())
        .collect();
    assert_eq!(ids, vec![third, first, second]);
}

#[test]
fn test_build_board_view_preserves_missing_card_error() {
    let registry = CardRegistry::new();
    let missing_id = CardId::default();

    let result = build_board_view(missing_id, &registry);

    assert!(matches!(result, Err(DomainError::CardNotFound(id)) if id == missing_id));
}

#[test]
fn test_execute_cross_parent_drag_and_drop() {
    let mut registry = CardRegistry::new();
    let workspace_id = registry.workspace_card_id().unwrap();

    let board_a = registry
        .create_card("Board A".into(), None, Some(workspace_id))
        .unwrap();
    let board_b = registry
        .create_card("Board B".into(), None, Some(workspace_id))
        .unwrap();

    let card_to_move = registry
        .create_card("Card 1".into(), None, Some(board_a))
        .unwrap();

    let b_card_1 = registry
        .create_card("B1".into(), None, Some(board_b))
        .unwrap();
    let b_card_2 = registry
        .create_card("B2".into(), None, Some(board_b))
        .unwrap();

    assert_eq!(registry.get_children(board_a).unwrap().len(), 1);
    assert_eq!(registry.get_children(board_b).unwrap().len(), 2);

    execute(
        Command::ReparentCard {
            card_id: card_to_move,
            new_parent_id: board_b,
        },
        &mut registry,
    )
    .unwrap();

    execute(
        Command::DropChildAtPosition {
            parent_id: board_b,
            card_id: card_to_move,
            target_index: 1,
        },
        &mut registry,
    )
    .unwrap();

    assert_eq!(registry.get_children(board_a).unwrap().len(), 0);

    let b_children: Vec<CardId> = registry
        .get_children(board_b)
        .unwrap()
        .iter()
        .map(|c| c.id())
        .collect();

    assert_eq!(b_children.len(), 3);
    assert_eq!(b_children, vec![b_card_1, card_to_move, b_card_2]);
}

#[test]
fn failed_commands_report_the_operation_error() {
    let mut registry = CardRegistry::new();
    let missing = CardId(1);
    assert_eq!(
        execute(Command::RenameCard { id: missing, title: "X".into() }, &mut registry),
        Err(DomainError::CardNotFound(missing))
    );
    let ws = registry.workspace_card_id().unwrap();
    assert_eq!(
        execute(Command::RenameCard { id: ws, title: " ".into() }, &mut registry),
        Err(DomainError::EmptyTitle)
    );
    assert_eq!(
        Command::ClearDueDate { card_id: ws }.name(),
        "ClearDueDate"
    );
}

#[test]
fn card_view_of_workspace() {
    let registry = CardRegistry::new();
    let root_id = registry.workspace_card_id().unwrap();
    let view = build_card_view(root_id, &registry).unwrap();
    assert_eq!(view.card.title(), "My Workspace");
    assert!(view.children.is_empty());
}

#[test]
fn every_command_keeps_the_registry_valid() {
    let mut registry = CardRegistry::new();
    let workspace = registry.workspace_card_id().unwrap();
    let a = registry.create_child_card("A".into(), workspace).unwrap();
    let b = registry.create_child_card("B".into(), a).unwrap();
    let c = registry.create_child_card("C".into(), b).unwrap();
    let note = registry.add_note_page(a, "Plan".into()).unwrap();

    let commands = vec![
        Command::CreateWorkspaceChildCard { title: "D".into(), description: None },
        Command::CreateChildCard { title: "  ".into(), description: None, parent_id: a },
        Command::CreateCard { title: "E".into(), description: Some("x".into()), parent_id: Some(b) },
        Command::RenameCard { id: b, title: "B2".into() },
        Command::RenameCard { id: b, title: "".into() },
        Command::SetCardDescription { id: c, description: Some("desc".into()) },
        Command::UpdateCardDetails {
            id: a,
            title: Some("A2".into()),
            description: Some(None),
            due_date: Some(Some(DueDate::parse("2030-01-02").unwrap())),
        },
        Command::AddNotePage { card_id: b, title: "Notes".into() },
        Command::RenameNotePage { card_id: a, note_page_id: note, title: "Plan 2".into() },
        Command::SaveNotePageBody { card_id: a, note_page_id: note, body: "body".into() },
        Command::DeleteNotePage { card_id: a, note_page_id: NotePageId(7) },
        Command::SetDueDate { card_id: c, due_date: DueDate::parse("2031-05-06").unwrap() },
        Command::ClearDueDate { card_id: c },
        Command::ReparentCard { card_id: a, new_parent_id: c },
        Command::ReparentCard { card_id: c, new_parent_id: workspace },
        // The workspace holds a, D and c here: an order without D is refused.
        Command::ReorderChildren { parent_id: workspace, ordered_ids: vec![c, a] },
        Command::DropChildAtPosition { parent_id: workspace, card_id: a, target_index: 0 },
        Command::DeleteCard { id: workspace, strategy: DeleteStrategy::CascadeDelete },
        Command::DeleteCard { id: a, strategy: DeleteStrategy::Reject },
        Command::DeleteCard { id: a, strategy: DeleteStrategy::ReparentToGrandparent },
        Command::DeleteCard { id: CardId(5), strategy: DeleteStrategy::CascadeDelete },
    ];
    let mut outcomes = Vec::new();
    for command in commands {
        let result = execute(command, &mut registry);
        assert!(!matches!(result, Err(DomainError::InvalidOperation(ref m)) if m.starts_with("Registry")));
        outcomes.push(result.is_ok());
        assert!(registry.validate().is_ok());
    }
    assert_eq!(
        outcomes,
        vec![
            true, false, true, true, false, true, true, true, true, true, false, true, true,
            false, true, false, true, false, false, true, false
        ]
    );
}

#[test]
fn execute_recorded_keeps_a_diagnostic_of_a_failure() {
    let mut registry = CardRegistry::new();
    let workspace = registry.workspace_card_id().unwrap();
    let mut diagnostics = DiagnosticsBuffer::new();

    let ok = execute_recorded(
        Command::CreateChildCard { title: "A".into(), description: None, parent_id: workspace },
        &mut registry,
        &mut diagnostics,
        17,
    );
    assert!(ok.is_ok());
    assert!(diagnostics.diagnostics_snapshot().is_empty());

    let failed = execute_recorded(
        Command::RenameCard { id: workspace, title: "  ".into() },
        &mut registry,
        &mut diagnostics,
        42,
    );
    assert_eq!(failed, Err(DomainError::EmptyTitle));
    let entries = diagnostics.diagnostics_snapshot();
    assert_eq!(entries.len(), 1);
    assert_eq!(entries[0].timestamp_unix_secs, 42);
    assert_eq!(entries[0].level, "ERROR");
    assert_eq!(entries[0].target, "application");
    assert_eq!(
        entries[0].message,
        "Application command 'RenameCard' failed: Card title cannot be empty or blank"
    );
}

#[test]
fn execute_in_a_registry_with_two_workspaces_refuses_a_deletion() {
    let registry = CardRegistry::new();
    let mut cards: Vec<Card> = registry.cards().into_iter().cloned().collect();
    cards.push(Card::new_root("Extra".into()).unwrap());
    let mut registry = CardRegistry::from_cards(cards);
    let any = registry.cards()[0].id();
    let command = Command::DeleteCard { id: any, strategy: DeleteStrategy::CascadeDelete };
    assert!(check_applicable(&command, &registry).is_ok());
    assert!(matches!(execute(command, &mut registry), Err(DomainError::InvalidOperation(_))));
}

#[test]
fn moves_in_a_malformed_registry_are_applicable_unless_the_walk_cycles() {
    let registry = CardRegistry::new();
    let workspace = registry.workspace_card_id().unwrap();
    let mut cards: Vec<Card> = registry.cards().into_iter().cloned().collect();
    cards.push(Card::new_root("Extra".into()).unwrap());
    let mut two_roots = CardRegistry::from_cards(cards);
    let command = Command::ReparentCard { card_id: workspace, new_parent_id: workspace };
    assert_eq!(check_applicable(&command, &two_roots), Ok(()));
    assert!(matches!(execute(command, &mut two_roots), Err(DomainError::InvalidOperation(_))));

    let (w, a, b, c) = (CardId(1), CardId(2), CardId(3), CardId(4));
    let cyclic = CardRegistry::from_cards(vec![
        Card::from_parts(w, "W".into(), None, None, vec![c], vec![], None, None, vec![]),
        Card::from_parts(a, "A".into(), None, Some(b), vec![b], vec![], None, None, vec![]),
        Card::from_parts(b, "B".into(), None, Some(a), vec![a], vec![], None, None, vec![]),
        Card::from_parts(c, "C".into(), None, Some(w), vec![], vec![], None, None, vec![]),
    ]);
    let into_cycle = Command::ReparentCard { card_id: c, new_parent_id: a };
    assert!(matches!(
        check_applicable(&into_cycle, &cyclic),
        Err(DomainError::InvalidOperation(_))
    ));
    let onto_cycle = Command::ReparentCard { card_id: a, new_parent_id: w };
    assert_eq!(check_applicable(&onto_cycle, &cyclic), Ok(()));
    assert_eq!(cyclic.walk_stops_from(a, c), false);
    assert_eq!(cyclic.walk_stops_from(a, b), true);
    assert_eq!(cyclic.walk_stops_from(c, w), true);
    assert_eq!(cyclic.walk_stops_from(CardId(9), w), true);
    assert!(!cyclic.is_acyclic());
    let lift = Command::DeleteCard { id: a, strategy: DeleteStrategy::ReparentToGrandparent };
    assert!(matches!(check_applicable(&lift, &cyclic), Err(DomainError::InvalidOperation(_))));
}

#[test]
fn lifting_deletions_need_only_walks_that_end() {
    let (w, a, b, orphan_parent) = (CardId(1), CardId(2), CardId(3), CardId(7));
    let malformed = CardRegistry::from_cards(vec![
        Card::from_parts(w, "W".into(), None, None, vec![a], vec![], None, None, vec![]),
        Card::from_parts(a, "A".into(), None, Some(w), vec![b], vec![], None, None, vec![]),
        Card::from_parts(b, "B".into(), None, Some(a), vec![], vec![], None, None, vec![]),
        Card::from_parts(CardId(4), "D".into(), None, Some(orphan_parent), vec![], vec![], None, None, vec![]),
    ]);
    assert!(malformed.validate().is_err());
    assert!(malformed.is_acyclic());
    let lift = Command::DeleteCard { id: a, strategy: DeleteStrategy::ReparentToGrandparent };
    assert_eq!(check_applicable(&lift, &malformed), Ok(()));
    let cascade = Command::DeleteCard { id: a, strategy: DeleteStrategy::CascadeDelete };
    assert!(matches!(check_applicable(&cascade, &malformed), Err(DomainError::InvalidOperation(_))));
    assert!(CardRegistry::new().is_acyclic());
}
