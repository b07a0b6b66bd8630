use kanban_planner::bucket::Bucket;
use kanban_planner::card::{Card, UNASSIGNED_BUCKET_NAME};
use kanban_planner::due_date::{current_local_date, DueDate};
use kanban_planner::error::DomainError;
use kanban_planner::ids::{BucketId, CardId, NotePageId};
use kanban_planner::label::{LabelColor, LabelDefinition};
use kanban_planner::note::NotePage;
use kanban_planner::rule::{RuleAction, RuleDefinition, RuleTrigger};
use kanban_planner::text::{trim, usize_text};
use kanban_planner::title::normalize_non_empty_title;

#[test]
fn test_label_creation() {
    let label = LabelDefinition::new("Urgent".into(), LabelColor::Rose).unwrap();
    assert_eq!(label.name(), "Urgent");
    assert_eq!(label.color(), LabelColor::Rose);
}

#[test]
fn test_label_rejects_blank_name() {
    let result = LabelDefinition::new("   ".into(), LabelColor::Ember);
    assert!(result.is_err());
}

#[test]
fn test_label_color_as_str() {
    assert_eq!(LabelColor::Ember.as_str(), "Ember");
    assert_eq!(LabelColor::Rose.as_str(), "Rose");
}

#[test]
fn test_label_color_palette() {
    let (bg, text) = LabelColor::Sky.palette();
    assert!(bg.contains("rgba"));
    assert!(text.starts_with("#"));
}

#[test]
fn label_name_is_trimmed_and_blank_is_refused_with_its_message() {
    let label = LabelDefinition::new("  Urgent ".into(), LabelColor::Gold).unwrap();
    assert_eq!(label.name(), "Urgent");
    match LabelDefinition::new(" \t ".into(), LabelColor::Gold) {
        Err(DomainError::InvalidOperation(m)) => {
            assert_eq!(m, "Label name cannot be empty or blank")
        }
        other => panic!("unexpected result: {:?}", other),
    }
}

#[test]
fn label_colors_are_listed_in_order() {
    let names: Vec<&str> = LabelColor::all().iter().map(|c| c.as_str()).collect();
    assert_eq!(names, vec!["Ember", "Gold", "Moss", "Sky", "Indigo", "Rose"]);
}

#[test]
fn test_rule_creation() {
    let rule = RuleDefinition::new(
        "My Rule".into(),
        RuleTrigger::NoteOpened,
        RuleAction::ShowPopup {
            title: "T".into(),
            message: "M".into(),
        },
    )
    .unwrap();
    assert_eq!(rule.name(), "My Rule");
    assert_eq!(rule.trigger(), &RuleTrigger::NoteOpened);
}

#[test]
fn test_rule_rejects_blank_name() {
    let result = RuleDefinition::new(
        "  ".into(),
        RuleTrigger::NoteOpened,
        RuleAction::ShowPopup {
            title: "T".into(),
            message: "M".into(),
        },
    );
    assert!(result.is_err());
}

#[test]
fn test_rule_rejects_empty_popup_fields() {
    let result = RuleDefinition::new(
        "Rule".into(),
        RuleTrigger::NoteOpened,
        RuleAction::ShowPopup {
            title: "".into(),
            message: "Valid".into(),
        },
    );
    assert!(result.is_err());

    let result = RuleDefinition::new(
        "Rule".into(),
        RuleTrigger::NoteOpened,
        RuleAction::ShowPopup {
            title: "Valid".into(),
            message: "   ".into(),
        },
    );
    assert!(result.is_err());
}

#[test]
fn rule_errors_carry_their_messages() {
    match RuleDefinition::new(
        " ".into(),
        RuleTrigger::NoteClosed,
        RuleAction::ShowPopup { title: "T".into(), message: "M".into() },
    ) {
        Err(DomainError::InvalidOperation(m)) => assert_eq!(m, "Rule name cannot be empty or blank"),
        other => panic!("unexpected result: {:?}", other),
    }
    match RuleDefinition::new(
        "Rule".into(),
        RuleTrigger::MovedToBucket(BucketId(7)),
        RuleAction::ShowPopup { title: "T".into(), message: "".into() },
    ) {
        Err(DomainError::InvalidOperation(m)) => {
            assert_eq!(m, "Popup rules require both a title and message")
        }
        other => panic!("unexpected result: {:?}", other),
    }
    let rule = RuleDefinition::new(
        "  Spaced  ".into(),
        RuleTrigger::NoteClosed,
        RuleAction::ShowPopup { title: "T".into(), message: "M".into() },
    )
    .unwrap();
    assert_eq!(rule.name(), "Spaced");
}

#[test]
fn test_bucket_creation() {
    let bucket = Bucket::new("To Do".to_string());
    assert_eq!(bucket.name(), "To Do");
    let _id = bucket.id();
}

#[test]
fn test_bucket_rename() {
    let mut bucket = Bucket::new("Drafts".to_string());
    let original_id = bucket.id();

    bucket.rename("Ready".to_string());

    assert_eq!(bucket.name(), "Ready");
    assert_eq!(bucket.id(), original_id, "Renaming must not change the Bucket ID");
}

#[test]
fn test_card_id_generation_and_display() {
    let id1 = CardId::new();
    let id2 = CardId::new();

    assert_ne!(id1, id2);

    assert_eq!(id1.to_text(), ulid::Ulid(id1.0).to_string());
}

#[test]
fn test_bucket_id_generation_and_display() {
    let id = BucketId::new();
    assert_eq!(id.to_text(), ulid::Ulid(id.0).to_string());
}

#[test]
fn identifier_text_is_crockford_base32() {
    assert_eq!(CardId(0).to_text(), "00000000000000000000000000");
    assert_eq!(
        CardId(0x4141_4141_4141_4141_4141_4141_4141_4141).to_text(),
        "21850M2GA1850M2GA1850M2GA1"
    );
    assert_eq!(NotePageId(31).to_text(), "0000000000000000000000000Z");
}

#[test]
fn normalize_non_empty_title_rejects_blank_values() {
    assert!(matches!(
        normalize_non_empty_title("   "),
        Err(DomainError::EmptyTitle)
    ));
}

#[test]
fn normalize_non_empty_title_trims_whitespace() {
    assert_eq!(
        normalize_non_empty_title("  Title  ").unwrap(),
        "Title".to_string()
    );
}

#[test]
fn normalizing_twice_changes_nothing() {
    let once = normalize_non_empty_title("\u{2003} Plan \n").unwrap();
    assert_eq!(once, "Plan");
    assert_eq!(normalize_non_empty_title(&once).unwrap(), once);
}

#[test]
fn trim_follows_unicode_whitespace() {
    assert_eq!(trim("\u{a0}\tword\u{3000}"), "word");
    assert_eq!(trim("   "), "");
    assert_eq!(trim("a b"), "a b");
}

#[test]
fn decimal_text_of_numbers() {
    assert_eq!(usize_text(0), "0");
    assert_eq!(usize_text(7), "7");
    assert_eq!(usize_text(1005), "1005");
}

#[test]
fn note_page_rejects_blank_title() {
    assert!(matches!(
        NotePage::new("  ".to_string()),
        Err(DomainError::EmptyTitle)
    ));
}

#[test]
fn note_page_title_is_trimmed_and_body_starts_empty() {
    let mut note = NotePage::new("  Journal ".to_string()).unwrap();
    assert_eq!(note.title(), "Journal");
    assert_eq!(note.body(), "");
    assert!(matches!(note.rename(" ".into()), Err(DomainError::EmptyTitle)));
    assert_eq!(note.title(), "Journal");
    note.set_body("text".into());
    assert_eq!(note.body(), "text");
}

#[test]
fn due_date_rejects_invalid_strings() {
    assert!(matches!(
        DueDate::parse("2026-02-30"),
        Err(DomainError::InvalidOperation(_))
    ));
}

#[test]
fn due_date_normalizes_valid_input() {
    let due_date = DueDate::parse("2026-03-18").unwrap();
    assert_eq!(due_date.as_str(), "2026-03-18");
}

#[test]
fn due_date_overdue_check_is_deterministic() {
    let due_date = DueDate::parse("2026-03-18").unwrap();
    assert!(due_date.is_overdue_on("2026-03-19"));
    assert!(!due_date.is_overdue_on("2026-03-18"));
    assert!(!due_date.is_overdue_on("2026-03-17"));
}

#[test]
fn due_date_is_trimmed_and_written_in_normal_form() {
    assert_eq!(DueDate::parse("  2025-1-5 ").unwrap().as_str(), "2025-01-05");
    match DueDate::parse("tomorrow") {
        Err(DomainError::InvalidOperation(m)) => {
            assert_eq!(m, "Due date must be a valid date in YYYY-MM-DD format")
        }
        other => panic!("unexpected result: {:?}", other),
    }
    assert!(DueDate::parse("2000-01-01").unwrap().is_overdue());
}

#[test]
fn test_new_root_has_no_parent_or_bucket() {
    let card = Card::new_root("Root".to_string()).unwrap();
    assert!(card.parent_id().is_none());
    assert!(card.bucket_id().is_none());
}

#[test]
fn test_new_root_has_unassigned_bucket() {
    let card = Card::new_root("Root".to_string()).unwrap();
    assert_eq!(card.buckets().len(), 1);
    assert_eq!(card.buckets()[0].name(), UNASSIGNED_BUCKET_NAME);
}

#[test]
fn test_new_child_has_parent_and_bucket() {
    let parent = Card::new_root("Parent".to_string()).unwrap();
    let bucket_id = parent.buckets()[0].id();
    let child = Card::new_child("Child".to_string(), parent.id(), bucket_id).unwrap();

    assert_eq!(child.parent_id(), Some(parent.id()));
    assert_eq!(child.bucket_id(), Some(bucket_id));
}

#[test]
fn test_add_duplicate_bucket_fails() {
    let mut card = Card::new_root("Project".to_string()).unwrap();
    assert!(card.add_bucket("In Progress".to_string()).is_ok());
    assert!(matches!(
        card.add_bucket("In Progress".to_string()),
        Err(DomainError::DuplicateBucketName(_))
    ));
}

#[test]
fn test_remove_unassigned_bucket_fails() {
    let mut card = Card::new_root("Project".to_string()).unwrap();
    let unassigned_id = card.buckets()[0].id();
    assert!(matches!(
        card.remove_bucket(unassigned_id),
        Err(DomainError::InvalidOperation(_))
    ));
}

#[test]
fn test_reorder_buckets() {
    let mut card = Card::new_root("Project".to_string()).unwrap();
    let id_a = card.add_bucket("Alpha".to_string()).unwrap();
    let id_b = card.add_bucket("Beta".to_string()).unwrap();
    let unassigned_id = card.buckets()[0].id();

    // Reorder: Beta, Unassigned, Alpha
    assert!(card.reorder_buckets(vec![id_b, unassigned_id, id_a]).is_ok());
    assert_eq!(card.buckets()[0].name(), "Beta");
    assert_eq!(card.buckets()[1].name(), UNASSIGNED_BUCKET_NAME);
    assert_eq!(card.buckets()[2].name(), "Alpha");
}

#[test]
fn test_reorder_buckets_fails_duplicates_and_unknowns() {
    let mut card = Card::new_root("Project".to_string()).unwrap();
    let id_a = card.add_bucket("Alpha".to_string()).unwrap();
    let _id_b = card.add_bucket("Beta".to_string()).unwrap();
    let unassigned_id = card.buckets()[0].id();

    // Fails Duplicate
    assert!(matches!(
        card.reorder_buckets(vec![id_a, id_a, unassigned_id]),
        Err(DomainError::DuplicateBucketId(_))
    ));

    // Fails Unknown
    assert!(matches!(
        card.reorder_buckets(vec![id_a, BucketId::new(), unassigned_id]),
        Err(DomainError::BucketNotFound(_))
    ));
}

#[test]
fn bucket_names_clash_whatever_their_ascii_case() {
    let mut card = Card::new_root("Project".to_string()).unwrap();
    assert_eq!(
        card.add_bucket("unassigned".to_string()),
        Err(DomainError::DuplicateBucketName("unassigned".to_string()))
    );
    let id_a = card.add_bucket("Alpha".to_string()).unwrap();
    let id_b = card.add_bucket("Beta".to_string()).unwrap();
    assert_eq!(
        card.rename_bucket(id_b, "ALPHA".to_string()),
        Err(DomainError::DuplicateBucketName("ALPHA".to_string()))
    );
    assert_eq!(card.rename_bucket(id_a, "alpha".to_string()), Ok(()));
    assert_eq!(card.buckets()[1].name(), "alpha");
    assert_eq!(card.buckets()[1].id(), id_a);
    assert_eq!(card.buckets().len(), 3);
}

#[test]
fn bucket_renames_and_removals_are_refused_in_order() {
    let mut card = Card::new_root("Project".to_string()).unwrap();
    let unassigned_id = card.buckets()[0].id();
    let id_a = card.add_bucket("Alpha".to_string()).unwrap();
    let missing = BucketId(7);
    assert_eq!(
        card.rename_bucket(id_a, "Unassigned".to_string()),
        Err(DomainError::InvalidOperation(
            "Cannot rename a bucket to 'Unassigned'.".to_string()
        ))
    );
    assert_eq!(
        card.rename_bucket(missing, "Gamma".to_string()),
        Err(DomainError::BucketNotFound(missing))
    );
    assert_eq!(
        card.rename_bucket(unassigned_id, "Gamma".to_string()),
        Err(DomainError::InvalidOperation(
            "The 'Unassigned' bucket cannot be renamed.".to_string()
        ))
    );
    assert_eq!(
        card.remove_bucket(unassigned_id),
        Err(DomainError::InvalidOperation(
            "The 'Unassigned' bucket cannot be removed.".to_string()
        ))
    );
    assert_eq!(card.remove_bucket(missing), Err(DomainError::BucketNotFound(missing)));
    assert_eq!(card.remove_bucket(id_a), Ok(()));
    assert_eq!(card.buckets().len(), 1);
    assert_eq!(
        card.reorder_buckets(vec![unassigned_id, id_a]),
        Err(DomainError::InvalidOperation(
            "Reorder list length does not match existing buckets".to_string()
        ))
    );
    let mut child = Card::new_child("Child".to_string(), card.id(), unassigned_id).unwrap();
    child.assign_to_bucket(BucketId(3));
    assert_eq!(child.bucket_id(), Some(BucketId(3)));
    child.set_bucket(None);
    assert_eq!(child.bucket_id(), None);
    assert_eq!(
        DomainError::DuplicateBucketId(missing).message(),
        format!("Duplicate bucket ID in reorder list: {}", missing.to_text())
    );
}

#[test]
fn test_rename_rejects_blank_title() {
    let mut card = Card::new_root("Title".to_string()).unwrap();
    assert!(matches!(
        card.rename("  ".to_string()),
        Err(DomainError::EmptyTitle)
    ));
    assert_eq!(
        card.title(),
        "Title",
        "Title must be unchanged after a failed rename"
    );
}

#[test]
fn test_new_card_rejects_blank_title() {
    assert!(matches!(
        Card::new_root("   ".to_string()),
        Err(DomainError::EmptyTitle)
    ));
}

#[test]
fn test_note_page_lifecycle() {
    let mut card = Card::new_root("Root".to_string()).unwrap();
    let note_id = card.add_note_page("Ideas".to_string()).unwrap();
    card.save_note_page_body(note_id, "hello".to_string())
        .unwrap();
    card.rename_note_page(note_id, "Refined".to_string())
        .unwrap();

    assert_eq!(card.notes()[0].title(), "Refined");
    assert_eq!(card.notes()[0].body(), "hello");

    card.delete_note_page(note_id).unwrap();
    assert!(card.notes().is_empty());
}

#[test]
fn missing_note_pages_are_reported() {
    let mut card = Card::new_root("Root".to_string()).unwrap();
    let missing = NotePageId(1);
    let expected = format!("Note page not found: {}", missing.to_text());
    match card.delete_note_page(missing) {
        Err(DomainError::InvalidOperation(m)) => assert_eq!(m, expected),
        other => panic!("unexpected result: {:?}", other),
    }
    match card.rename_note_page(missing, "x".into()) {
        Err(DomainError::InvalidOperation(m)) => assert_eq!(m, expected),
        other => panic!("unexpected result: {:?}", other),
    }
    let id = card.add_note_page("Ideas".into()).unwrap();
    assert!(matches!(card.rename_note_page(id, " ".into()), Err(DomainError::EmptyTitle)));
    assert_eq!(card.notes()[0].title(), "Ideas");
}

#[test]
fn card_reorder_reports_each_fault() {
    let parent = CardId(1);
    let (a, b) = (CardId(2), CardId(3));
    let mut card = Card::from_parts(parent, "P".into(), None, None, vec![a, b], vec![], None, None, vec![]);
    match card.reorder_children(vec![a]) {
        Err(DomainError::InvalidOperation(m)) => {
            assert_eq!(m, "Reorder list length does not match existing children")
        }
        other => panic!("unexpected result: {:?}", other),
    }
    match card.reorder_children(vec![a, a]) {
        Err(DomainError::InvalidOperation(m)) => {
            assert_eq!(m, format!("Duplicate child ID in reorder list: {}", a.to_text()))
        }
        other => panic!("unexpected result: {:?}", other),
    }
    assert_eq!(card.reorder_children(vec![a, CardId(9)]), Err(DomainError::CardNotFound(CardId(9))));
    assert_eq!(card.children_ids(), &[a, b]);
    card.reorder_children(vec![b, a]).unwrap();
    assert_eq!(card.children_ids(), &[b, a]);
}

#[test]
fn error_messages_match_their_display_text() {
    let id = CardId(0);
    assert_eq!(
        DomainError::CardNotFound(id).message(),
        "Card not found: 00000000000000000000000000"
    );
    assert_eq!(DomainError::EmptyTitle.message(), "Card title cannot be empty or blank");
    assert_eq!(
        DomainError::CycleDetected.message(),
        "Reparenting would create a cycle in the card tree"
    );
    assert_eq!(
        DomainError::InvalidOperation("x".into()).message(),
        "Invalid operation: x"
    );
    assert_eq!(
        DomainError::IncompatibleLegacyData("y".into()).message(),
        "Incompatible legacy data: y"
    );
}

#[test]
fn card_id_reads_back_from_its_text() {
    for _ in 0..20 {
        let id = CardId::new();
        assert_eq!(CardId::from_text(&id.to_text()), Some(id));
    }
    assert_eq!(CardId::from_text("00000000000000000000000000"), Some(CardId(0)));
    assert_eq!(
        CardId::from_text("21850M2GA1850M2GA1850M2GA1"),
        Some(CardId(0x4141_4141_4141_4141_4141_4141_4141_4141))
    );
}

#[test]
fn card_id_text_is_read_in_either_case() {
    assert_eq!(
        CardId::from_text("2d9rw50ma499cmaghm6dd42dtp"),
        Some(CardId(0x4d4e_3850_5144_4a59_4542_3433_5a41_3756))
    );
}

#[test]
fn card_id_text_keeps_the_low_bits_of_an_oversized_number() {
    assert_eq!(CardId::from_text("ZZZZZZZZZZZZZZZZZZZZZZZZZZ"), Some(CardId(u128::MAX)));
}

#[test]
fn card_id_text_refuses_bad_length_and_letters() {
    assert_eq!(CardId::from_text(""), None);
    assert_eq!(CardId::from_text("2D9RW50MA499CMAGHM6DD42DT"), None);
    assert_eq!(CardId::from_text("2D9RW50MA499CMAGHM6DD42DTPP"), None);
    assert_eq!(CardId::from_text("2D9RW50LA499CMAGHM6DD42DTP"), None);
    assert_eq!(CardId::from_text("2D9RW50IA499CMAGHM6DD42DTP"), None);
    assert_eq!(CardId::from_text("2D9RW50UA499CMAGHM6DD42DTP"), None);
    assert_eq!(CardId::from_text("2D9RW50[A499CMAGHM6DD42DTP"), None);
    assert_eq!(CardId::from_text("2D9RW50éA499CMAGHM6DD42DT"), None);
}

#[test]
fn due_date_of_a_utc_point_in_time() {
    assert_eq!(DueDate::from_utc_seconds(0).unwrap().as_str(), "1970-01-01");
    assert_eq!(DueDate::from_utc_seconds(86_399).unwrap().as_str(), "1970-01-01");
    assert_eq!(DueDate::from_utc_seconds(1_700_000_000).unwrap().as_str(), "2023-11-14");
    assert_eq!(DueDate::from_utc_seconds(-1).unwrap().as_str(), "1969-12-31");
    assert!(DueDate::from_utc_seconds(i64::MAX).is_none());
}

#[test]
fn unassigned_bucket_survives_every_bucket_change() {
    let mut card = Card::new_root("Project".to_string()).unwrap();
    let unassigned_id = card.buckets()[0].id();
    let id_a = card.add_bucket("Alpha".to_string()).unwrap();
    assert!(card.rename_bucket(unassigned_id, "Other".to_string()).is_err());
    assert!(card.remove_bucket(unassigned_id).is_err());
    assert_eq!(card.reorder_buckets(vec![id_a, unassigned_id]), Ok(()));
    assert_eq!(card.remove_bucket(id_a), Ok(()));
    assert_eq!(card.buckets().len(), 1);
    assert_eq!(card.buckets()[0].name(), UNASSIGNED_BUCKET_NAME);
    assert_eq!(card.buckets()[0].id(), unassigned_id);
}

#[test]
fn the_local_date_is_written_year_month_day() {
    let today = current_local_date();
    let chars: Vec<char> = today.chars().collect();
    let n = chars.len();
    assert!(n >= 10);
    assert_eq!(chars[n - 6], '-');
    assert_eq!(chars[n - 3], '-');
    for i in [n - 5, n - 4, n - 2, n - 1] {
        assert!(chars[i].is_ascii_digit());
    }
    assert!(DueDate::parse(&today).is_ok());
}
