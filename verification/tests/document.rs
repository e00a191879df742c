use lopdf::{Dictionary, Document, Object};
use nxtpdf::error::AppError;
use nxtpdf::pdf::document::{
    append_document, blank, delete_pages, extract_pages, move_page, normalize_rotation, open,
    page_count, page_ids, reorder_pages, rotate_page, rotation,
};

fn multi_page(count: usize) -> lopdf::Document {
    let mut doc = blank().expect("blank document");
    for _ in 1..count {
        let extra = blank().expect("blank document");
        append_document(&mut doc, extra).expect("append");
    }
    doc
}

#[test]
fn blank_document_has_one_page() {
    let doc = blank().unwrap();
    assert_eq!(page_count(&doc), 1);
}

#[test]
fn append_grows_the_page_count() {
    let doc = multi_page(3);
    assert_eq!(page_count(&doc), 3);
}

#[test]
fn rotation_wraps_and_normalizes() {
    assert_eq!(normalize_rotation(-90), 270);
    assert_eq!(normalize_rotation(450), 90);
    assert_eq!(normalize_rotation(360), 0);
}

#[test]
fn rotate_page_accumulates() {
    let mut doc = blank().unwrap();
    rotate_page(&mut doc, 0, 90).unwrap();
    rotate_page(&mut doc, 0, 270).unwrap();
    let id = page_ids(&doc)[0];
    assert_eq!(rotation(&doc, id), 0);
}

#[test]
fn rotate_rejects_non_quarter_turns() {
    let mut doc = blank().unwrap();
    assert!(rotate_page(&mut doc, 0, 45).is_err());
}

#[test]
fn cannot_delete_every_page() {
    let mut doc = multi_page(2);
    assert!(delete_pages(&mut doc, &[0, 1]).is_err());
}

#[test]
fn delete_removes_the_requested_page() {
    let mut doc = multi_page(3);
    delete_pages(&mut doc, &[1]).unwrap();
    assert_eq!(page_count(&doc), 2);
}

#[test]
fn reorder_rejects_duplicates() {
    let mut doc = multi_page(3);
    assert!(reorder_pages(&mut doc, &[0, 0, 1]).is_err());
}

#[test]
fn reorder_rejects_wrong_length() {
    let mut doc = multi_page(3);
    assert!(reorder_pages(&mut doc, &[0, 1]).is_err());
}

#[test]
fn move_page_preserves_count() {
    let mut doc = multi_page(4);
    move_page(&mut doc, 0, 3).unwrap();
    assert_eq!(page_count(&doc), 4);
}

#[test]
fn extract_keeps_only_requested_pages() {
    let doc = multi_page(4);
    let subset = extract_pages(&doc, &[1, 2]).unwrap();
    assert_eq!(page_count(&subset), 2);
}

// --- Further cases -------------------------------------------------------

#[test]
fn rotation_of_a_blank_page_starts_at_zero() {
    let doc = blank().unwrap();
    let id = page_ids(&doc)[0];
    assert_eq!(rotation(&doc, id), 0);
}

#[test]
fn rotation_turns_add_up_and_wrap() {
    let mut doc = blank().unwrap();
    rotate_page(&mut doc, 0, 270).unwrap();
    rotate_page(&mut doc, 0, 180).unwrap();
    let id = page_ids(&doc)[0];
    assert_eq!(rotation(&doc, id), 90);
    rotate_page(&mut doc, 0, -90).unwrap();
    assert_eq!(rotation(&doc, id), 0);
}

#[test]
fn normalize_rotation_handles_large_negative_turns() {
    assert_eq!(normalize_rotation(-450), 270);
    assert_eq!(normalize_rotation(0), 0);
    assert_eq!(normalize_rotation(180), 180);
    assert_eq!(normalize_rotation(-720), 0);
}

#[test]
fn rotating_a_missing_page_reports_its_index() {
    let mut doc = blank().unwrap();
    match rotate_page(&mut doc, 3, 90) {
        Err(AppError::PageOutOfRange(3)) => {}
        other => panic!("unexpected: {:?}", other.is_ok()),
    }
}

#[test]
fn a_non_quarter_turn_is_invalid_input() {
    let mut doc = blank().unwrap();
    assert!(matches!(rotate_page(&mut doc, 0, 45), Err(AppError::InvalidInput(_))));
}

#[test]
fn deleting_a_missing_page_reports_its_index() {
    let mut doc = multi_page(2);
    assert!(matches!(delete_pages(&mut doc, &[5]), Err(AppError::PageOutOfRange(5))));
    assert_eq!(page_count(&doc), 2);
}

#[test]
fn deleting_the_same_page_twice_removes_it_once() {
    let mut doc = multi_page(3);
    delete_pages(&mut doc, &[1, 1]).unwrap();
    assert_eq!(page_count(&doc), 2);
}

#[test]
fn delete_keeps_the_other_pages_in_order() {
    let mut doc = multi_page(3);
    let before = page_ids(&doc);
    delete_pages(&mut doc, &[1]).unwrap();
    assert_eq!(page_ids(&doc), vec![before[0], before[2]]);
}

#[test]
fn reorder_applies_the_permutation() {
    let mut doc = multi_page(3);
    let before = page_ids(&doc);
    reorder_pages(&mut doc, &[2, 0, 1]).unwrap();
    assert_eq!(page_ids(&doc), vec![before[2], before[0], before[1]]);
}

#[test]
fn reorder_rejects_an_index_past_the_end() {
    let mut doc = multi_page(3);
    assert!(matches!(reorder_pages(&mut doc, &[0, 1, 3]), Err(AppError::PageOutOfRange(3))));
}

#[test]
fn move_page_shifts_the_pages_between() {
    let mut doc = multi_page(4);
    let before = page_ids(&doc);
    move_page(&mut doc, 0, 3).unwrap();
    assert_eq!(page_ids(&doc), vec![before[1], before[2], before[3], before[0]]);
    move_page(&mut doc, 3, 1).unwrap();
    assert_eq!(page_ids(&doc), vec![before[1], before[0], before[2], before[3]]);
}

#[test]
fn moving_a_page_to_itself_changes_nothing() {
    let mut doc = multi_page(3);
    let before = page_ids(&doc);
    move_page(&mut doc, 1, 1).unwrap();
    assert_eq!(page_ids(&doc), before);
}

#[test]
fn move_page_rejects_an_index_past_the_end() {
    let mut doc = multi_page(2);
    assert!(matches!(move_page(&mut doc, 0, 2), Err(AppError::PageOutOfRange(2))));
    assert!(matches!(move_page(&mut doc, 4, 0), Err(AppError::PageOutOfRange(4))));
}

#[test]
fn extract_rejects_an_empty_selection() {
    let doc = multi_page(2);
    assert!(matches!(extract_pages(&doc, &[]), Err(AppError::InvalidInput(_))));
}

#[test]
fn extract_rejects_a_missing_page() {
    let doc = multi_page(2);
    assert!(matches!(extract_pages(&doc, &[0, 7]), Err(AppError::PageOutOfRange(7))));
}

#[test]
fn extract_leaves_the_source_alone() {
    let doc = multi_page(3);
    let before = page_ids(&doc);
    let subset = extract_pages(&doc, &[2]).unwrap();
    assert_eq!(page_count(&subset), 1);
    assert_eq!(page_ids(&doc), before);
}

#[test]
fn bytes_that_are_not_a_pdf_are_refused() {
    assert!(matches!(open(b"not a pdf at all"), Err(AppError::Pdf(_))));
}

#[test]
fn a_saved_document_opens_again_with_its_pages() {
    let mut doc = multi_page(2);
    let mut bytes = Vec::new();
    doc.save_to(&mut bytes).expect("serialize");
    let reopened = open(&bytes).expect("open");
    assert_eq!(page_count(&reopened), 2);
    assert_eq!(reopened.version, "1.7");
}

#[test]
fn a_file_without_a_version_is_taken_as_one_point_seven() {
    let mut doc = blank().unwrap();
    let mut bytes = Vec::new();
    doc.save_to(&mut bytes).expect("serialize");
    // Blank out the version digits in the header: `%PDF-1.7` becomes `%PDF-   `.
    assert_eq!(&bytes[..8], b"%PDF-1.7");
    bytes[5] = b' ';
    bytes[6] = b' ';
    bytes[7] = b' ';
    let reopened = open(&bytes).expect("open");
    assert_eq!(reopened.version, "1.7");
    assert_eq!(page_count(&reopened), 1);
}

#[test]
fn two_turns_equal_one_turn_by_their_sum() {
    let mut twice = blank().unwrap();
    rotate_page(&mut twice, 0, 90).unwrap();
    rotate_page(&mut twice, 0, 180).unwrap();
    let mut once = blank().unwrap();
    rotate_page(&mut once, 0, 270).unwrap();
    let page = page_ids(&twice)[0];
    assert_eq!(rotation(&twice, page), rotation(&once, page_ids(&once)[0]));
    assert_eq!(rotation(&twice, page), 270);

    rotate_page(&mut once, 0, 360).unwrap();
    assert_eq!(rotation(&once, page_ids(&once)[0]), 270);
}

/// Two pages under a `/Pages` node that holds their `/MediaBox` and
/// `/Rotate`; the first page has a `/Rotate` of its own.
fn inheriting_tree() -> (lopdf::Document, Vec<lopdf::ObjectId>) {
    let mut doc = Document::with_version("1.5");
    let pages_id = doc.new_object_id();
    let mut kids = Vec::new();
    let mut ids = Vec::new();
    for own_rotation in [Some(180), None] {
        let mut page = Dictionary::new();
        page.set("Type", Object::Name(b"Page".to_vec()));
        page.set("Parent", Object::Reference(pages_id));
        if let Some(rotation) = own_rotation {
            page.set("Rotate", Object::Integer(rotation));
        }
        let id = doc.add_object(Object::Dictionary(page));
        kids.push(Object::Reference(id));
        ids.push(id);
    }
    let mut pages = Dictionary::new();
    pages.set("Type", Object::Name(b"Pages".to_vec()));
    pages.set("Kids", Object::Array(kids));
    pages.set("Count", Object::Integer(2));
    pages.set(
        "MediaBox",
        Object::Array(vec![
            Object::Integer(0),
            Object::Integer(0),
            Object::Integer(200),
            Object::Integer(300),
        ]),
    );
    pages.set("Rotate", Object::Integer(90));
    doc.objects.insert(pages_id, Object::Dictionary(pages));
    let mut catalog = Dictionary::new();
    catalog.set("Type", Object::Name(b"Catalog".to_vec()));
    catalog.set("Pages", Object::Reference(pages_id));
    let catalog_id = doc.add_object(Object::Dictionary(catalog));
    doc.trailer.set("Root", Object::Reference(catalog_id));
    (doc, ids)
}

#[test]
fn reordering_pushes_inherited_attributes_onto_pages() {
    let (mut doc, ids) = inheriting_tree();
    reorder_pages(&mut doc, &[1, 0]).unwrap();
    for id in &ids {
        let page = doc.get_dictionary(*id).unwrap();
        let media_box: Vec<i64> = page
            .get(b"MediaBox")
            .unwrap()
            .as_array()
            .unwrap()
            .iter()
            .map(|n| n.as_i64().unwrap())
            .collect();
        assert_eq!(media_box, vec![0, 0, 200, 300]);
    }
    // A page's own attribute wins over the inherited one.
    let first = doc.get_dictionary(ids[0]).unwrap();
    assert_eq!(first.get(b"Rotate").unwrap().as_i64().unwrap(), 180);
    let second = doc.get_dictionary(ids[1]).unwrap();
    assert_eq!(second.get(b"Rotate").unwrap().as_i64().unwrap(), 90);
    assert_eq!(page_ids(&doc), vec![ids[1], ids[0]]);
}

#[test]
fn a_parent_cycle_cannot_be_walked_for_deletion() {
    let (mut doc, ids) = inheriting_tree();
    assert!(nxtpdf::pdf::document::can_delete_pages(&doc, &[1]));
    // Point the page tree's root at itself.
    let pages_id = doc.get_dictionary(ids[0]).unwrap().get(b"Parent").unwrap().as_reference().unwrap();
    doc.get_dictionary_mut(pages_id).unwrap().set("Parent", Object::Reference(pages_id));
    assert!(!nxtpdf::pdf::document::can_delete_pages(&doc, &[1]));
}

#[test]
fn a_count_at_the_bottom_of_its_range_cannot_be_lowered() {
    let (mut doc, ids) = inheriting_tree();
    let pages_id = doc.get_dictionary(ids[0]).unwrap().get(b"Parent").unwrap().as_reference().unwrap();
    doc.get_dictionary_mut(pages_id).unwrap().set("Count", Object::Integer(i64::MIN));
    assert!(!nxtpdf::pdf::document::can_delete_pages(&doc, &[1]));
}

#[test]
fn appending_to_a_well_formed_document_succeeds() {
    let mut doc = blank().unwrap();
    let other = multi_page(2);
    append_document(&mut doc, other).unwrap();
    assert_eq!(page_count(&doc), 3);
}

#[test]
fn an_extract_holds_the_pages_asked_for_in_that_order() {
    let doc = multi_page(4);
    let ids = page_ids(&doc);
    let subset = extract_pages(&doc, &[3, 1]).unwrap();
    assert_eq!(page_count(&subset), 2);
    // Writing and reading back keeps object numbers, so the copies carry the
    // numbers of the pages they copy.
    assert_eq!(page_ids(&subset), vec![ids[3], ids[1]]);
    // The source is untouched.
    assert_eq!(page_ids(&doc), ids);
}

#[test]
fn an_extract_in_ascending_order_keeps_those_pages() {
    let doc = multi_page(4);
    let ids = page_ids(&doc);
    let subset = extract_pages(&doc, &[1, 2]).unwrap();
    assert_eq!(page_ids(&subset), vec![ids[1], ids[2]]);
}

#[test]
fn a_page_named_twice_cannot_be_extracted() {
    let doc = multi_page(3);
    match extract_pages(&doc, &[1, 1]) {
        Err(AppError::InvalidInput(message)) => {
            assert_eq!(message, "Expected an order for all 1 pages, got 2.")
        }
        other => panic!("expected an error, got {:?}", other.map(|_| ())),
    }
}

#[test]
fn relisting_makes_the_tree_exactly_those_pages() {
    let mut doc = multi_page(3);
    let ids = page_ids(&doc);
    nxtpdf::pdf::document::relist_pages(&mut doc, &[ids[2], ids[0]]).unwrap();
    assert_eq!(page_ids(&doc), vec![ids[2], ids[0]]);
}
