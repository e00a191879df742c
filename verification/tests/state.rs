use nxtpdf::pdf::document::blank;
use nxtpdf::pdf::forms::{self, CheckboxArt, FieldKind, NewField};
use nxtpdf::pdf::object::object_from_lopdf;
use nxtpdf::state::{merges_into, DocumentId, DocumentSession, Workspace, COALESCE_WINDOW_MS, HISTORY_DEPTH};

fn workspace_with(count: usize) -> (Workspace, Vec<DocumentId>) {
    let mut workspace = Workspace::default();
    let ids = (0..count)
        .map(|i| workspace.open(blank().expect("blank"), Some(format!("doc{i}.pdf"))))
        .collect();
    (workspace, ids)
}

#[test]
fn opening_activates_the_new_tab() {
    let (workspace, ids) = workspace_with(3);
    assert_eq!(workspace.active_id(), Some(ids[2]));
}

#[test]
fn ids_are_unique_and_never_reused() {
    let (mut workspace, ids) = workspace_with(2);
    workspace.close(ids[1]);
    let fresh = workspace.open(blank().unwrap(), None);
    assert!(!ids.contains(&fresh));
}

#[test]
fn closing_the_active_tab_focuses_its_right_neighbour() {
    let (mut workspace, ids) = workspace_with(3);
    workspace.activate(ids[1]);

    assert_eq!(workspace.close(ids[1]), Some(ids[2]));
}

#[test]
fn closing_the_last_tab_focuses_the_new_last() {
    let (mut workspace, ids) = workspace_with(3);
    assert_eq!(workspace.close(ids[2]), Some(ids[1]));
}

#[test]
fn closing_an_inactive_tab_leaves_focus_alone() {
    let (mut workspace, ids) = workspace_with(3);
    workspace.activate(ids[0]);
    assert_eq!(workspace.close(ids[2]), Some(ids[0]));
}

#[test]
fn closing_the_only_tab_leaves_nothing_active() {
    let (mut workspace, ids) = workspace_with(1);
    assert_eq!(workspace.close(ids[0]), None);
    assert!(workspace.is_empty());
}

#[test]
fn activating_an_unknown_id_is_refused() {
    let (mut workspace, ids) = workspace_with(1);
    assert!(!workspace.activate(9999));
    assert_eq!(workspace.active_id(), Some(ids[0]));
}

#[test]
fn a_path_already_open_is_found() {
    let (workspace, ids) = workspace_with(2);
    assert_eq!(workspace.find_by_path("doc0.pdf"), Some(ids[0]));
    assert_eq!(workspace.find_by_path("nope.pdf"), None);
}

// --- Undo history --------------------------------------------------------

fn session_with_a_blank_page() -> DocumentSession {
    DocumentSession::new(1, blank().expect("blank"), None)
}

fn real_number(n: f32) -> nxtpdf::pdf::object::PdfObject {
    object_from_lopdf(lopdf::Object::Real(n))
}

/// Adds a named field, recording a history step first, exactly as the
/// command layer does.
fn add_field(session: &mut DocumentSession, name: &str) {
    session.checkpoint();
    forms::create_field(
        &mut session.doc,
        &NewField {
            page_index: 0,
            name: name.to_string(),
            kind: FieldKind::Text,
            rect: Some(vec![real_number(72.0), real_number(600.0), real_number(300.0), real_number(620.0)]),
            font_size: "10".to_string(),
            multiline: false,
            required: false,
            max_length: None,
            options: Vec::new(),
            checkbox: CheckboxArt { bbox: Vec::new(), ticked: Vec::new(), clear: Vec::new() },
        },
    )
    .expect("create");
    session.touch();
}

fn field_names(session: &DocumentSession) -> Vec<String> {
    forms::list_fields(&session.doc).into_iter().map(|field| field.name).collect()
}

#[test]
fn undo_restores_the_previous_state() {
    let mut session = session_with_a_blank_page();
    add_field(&mut session, "buyer");
    assert_eq!(field_names(&session), vec!["buyer"]);

    assert!(session.undo().expect("undo"));
    assert!(field_names(&session).is_empty());
}

#[test]
fn undo_walks_back_one_step_at_a_time() {
    let mut session = session_with_a_blank_page();
    add_field(&mut session, "buyer");
    add_field(&mut session, "seller");
    assert_eq!(field_names(&session).len(), 2);

    session.undo().expect("undo");
    assert_eq!(field_names(&session), vec!["buyer"]);

    session.undo().expect("undo");
    assert!(field_names(&session).is_empty());
}

#[test]
fn undo_with_no_history_is_not_an_error() {
    let mut session = session_with_a_blank_page();
    assert!(!session.can_undo());
    assert!(!session.undo().expect("undo"));
}

#[test]
fn redo_puts_the_change_back() {
    let mut session = session_with_a_blank_page();
    add_field(&mut session, "buyer");

    session.undo().expect("undo");
    assert!(session.can_redo());

    assert!(session.redo().expect("redo"));
    assert_eq!(field_names(&session), vec!["buyer"]);
}

#[test]
fn a_new_edit_discards_what_was_ahead() {
    let mut session = session_with_a_blank_page();
    add_field(&mut session, "buyer");
    session.undo().expect("undo");
    assert!(session.can_redo());

    add_field(&mut session, "seller");
    assert!(!session.can_redo());
    assert_eq!(field_names(&session), vec!["seller"]);
}

#[test]
fn every_step_moves_the_revision_so_page_images_are_refetched() {
    let mut session = session_with_a_blank_page();
    let start = session.revision;

    add_field(&mut session, "buyer");
    let edited = session.revision;
    assert_ne!(edited, start);

    session.undo().expect("undo");
    assert_ne!(session.revision, edited);
}

#[test]
fn undoing_back_to_the_saved_state_clears_the_unsaved_marker() {
    let mut session = session_with_a_blank_page();
    session.mark_saved();

    add_field(&mut session, "buyer");
    assert!(session.dirty);

    session.undo().expect("undo");
    assert!(!session.dirty, "back at the saved state, so nothing is unsaved");
}

#[test]
fn redoing_away_from_the_saved_state_marks_it_unsaved_again() {
    let mut session = session_with_a_blank_page();
    session.mark_saved();
    add_field(&mut session, "buyer");
    session.undo().expect("undo");

    session.redo().expect("redo");
    assert!(session.dirty);
}

#[test]
fn saving_after_an_undo_makes_that_the_clean_state() {
    let mut session = session_with_a_blank_page();
    add_field(&mut session, "buyer");
    add_field(&mut session, "seller");
    session.undo().expect("undo");

    session.mark_saved();
    assert!(!session.dirty);

    session.undo().expect("undo");
    assert!(session.dirty, "moved away from what was written to disk");
}

#[test]
fn repeating_the_same_kind_of_change_is_one_step() {
    let mut session = session_with_a_blank_page();
    add_field(&mut session, "buyer");

    for _ in 0..20 {
        session.checkpoint_merging("move-fields");
        session.touch();
    }

    assert_eq!(session.undo.len(), 2, "the field, then the whole movement");
}

#[test]
fn a_different_kind_of_change_starts_its_own_step() {
    let mut session = session_with_a_blank_page();

    session.checkpoint_merging("move-fields");
    session.touch();
    session.checkpoint_merging("resize-fields");
    session.touch();

    assert_eq!(session.undo.len(), 2);
}

#[test]
fn undoing_ends_the_gesture_being_merged_into() {
    let mut session = session_with_a_blank_page();
    add_field(&mut session, "buyer");

    session.checkpoint_merging("move-fields");
    session.touch();
    session.undo().expect("undo");

    session.checkpoint_merging("move-fields");
    session.touch();

    assert_eq!(session.undo.len(), 2);
}

#[test]
fn an_ordinary_checkpoint_never_merges() {
    let mut session = session_with_a_blank_page();

    for _ in 0..5 {
        session.checkpoint();
        session.touch();
    }

    assert_eq!(session.undo.len(), 5);
}

#[test]
fn history_is_bounded() {
    let mut session = session_with_a_blank_page();
    for index in 0..(HISTORY_DEPTH + 10) {
        add_field(&mut session, &format!("field{index}"));
    }

    assert_eq!(session.undo.len(), HISTORY_DEPTH);
}

#[test]
fn the_saved_position_survives_the_history_filling_up() {
    let mut session = session_with_a_blank_page();
    add_field(&mut session, "first");
    session.mark_saved();

    for index in 0..HISTORY_DEPTH {
        add_field(&mut session, &format!("field{index}"));
    }
    assert!(session.dirty);

    while session.can_undo() && session.dirty {
        session.undo().expect("undo");
    }
    assert!(!session.dirty);
    assert_eq!(field_names(&session), vec!["first"]);
}

#[test]
fn an_unsaved_document_matches_no_path() {
    let mut workspace = Workspace::default();
    workspace.open(blank().unwrap(), None);
    assert_eq!(workspace.find_by_path("doc0.pdf"), None);
}

// --- Further cases -------------------------------------------------------

#[test]
fn redo_with_nothing_ahead_is_not_an_error() {
    let mut session = session_with_a_blank_page();
    assert!(!session.can_redo());
    assert!(!session.redo().expect("redo"));
}

#[test]
fn undo_then_redo_returns_to_the_same_document() {
    let mut session = session_with_a_blank_page();
    add_field(&mut session, "buyer");
    add_field(&mut session, "seller");
    session.undo().expect("undo");
    session.redo().expect("redo");
    assert_eq!(field_names(&session), vec!["buyer", "seller"]);
    assert!(session.can_undo());
    assert!(!session.can_redo());
}

#[test]
fn a_new_session_is_clean() {
    let session = session_with_a_blank_page();
    assert!(!session.dirty);
    assert_eq!(session.revision, 1);
    assert!(session.undo.is_empty());
}

#[test]
fn the_display_name_of_an_unsaved_document() {
    let session = session_with_a_blank_page();
    assert_eq!(session.display_name(), "Untitled.pdf");
    let named = DocumentSession::new(2, blank().unwrap(), Some("reports/q3.pdf".to_string()));
    assert_eq!(named.display_name(), "q3.pdf");
}

#[test]
fn the_bytes_follow_the_revision() {
    let mut session = session_with_a_blank_page();
    let first = session.bytes().expect("bytes").to_vec();
    assert!(first.starts_with(b"%PDF"));
    add_field(&mut session, "buyer");
    let second = session.bytes().expect("bytes").to_vec();
    assert_ne!(first, second);
}

#[test]
fn the_active_session_is_the_one_last_opened() {
    let (mut workspace, ids) = workspace_with(2);
    let active = workspace.active_mut().expect("active");
    assert_eq!(active.id, ids[1]);
    assert!(workspace.by_id_mut(ids[0]).is_some());
    assert!(workspace.by_id_mut(77).is_none());
}

#[test]
fn closing_an_unknown_tab_changes_nothing() {
    let (mut workspace, ids) = workspace_with(2);
    assert_eq!(workspace.close(42), Some(ids[1]));
    assert_eq!(workspace.iter().count(), 2);
}

#[test]
fn steps_merge_only_for_the_same_gesture_in_time() {
    assert!(merges_into("move-fields", "move-fields", 0));
    assert!(merges_into("move-fields", "move-fields", COALESCE_WINDOW_MS - 1));
    assert!(!merges_into("move-fields", "move-fields", COALESCE_WINDOW_MS));
    assert!(!merges_into("move-fields", "resize-fields", 10));
}

#[test]
fn bytes_are_the_document_written_out() {
    let doc = blank().unwrap();
    let mut expected = Vec::new();
    doc.clone().save_to(&mut expected).unwrap();
    let mut session = DocumentSession::new(1, doc, None);
    let bytes = session.bytes().unwrap().to_vec();
    assert_eq!(bytes, expected);
    // A second call with nothing changed gives the same bytes.
    assert_eq!(session.bytes().unwrap().to_vec(), bytes);
}

#[test]
fn undo_brings_back_the_document_as_recorded() {
    let mut session = DocumentSession::new(1, blank().unwrap(), None);
    session.checkpoint();
    let spec = NewField {
        page_index: 0,
        name: "buyer".to_string(),
        kind: FieldKind::Text,
        rect: Some(
            [72.0f32, 600.0, 300.0, 620.0]
                .iter()
                .map(|&n| object_from_lopdf(lopdf::Object::Real(n)))
                .collect(),
        ),
        font_size: "10".to_string(),
        multiline: false,
        required: false,
        max_length: None,
        options: Vec::new(),
        checkbox: CheckboxArt { bbox: Vec::new(), ticked: Vec::new(), clear: Vec::new() },
    };
    forms::create_field(&mut session.doc, &spec).unwrap();
    session.touch();
    assert_eq!(session.undo().unwrap(), true);
    assert!(forms::list_fields(&session.doc).is_empty());
    assert_eq!(session.redo().unwrap(), true);
    let names: Vec<String> = forms::list_fields(&session.doc).into_iter().map(|f| f.name).collect();
    assert_eq!(names, vec!["buyer".to_string()]);
}
