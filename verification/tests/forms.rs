use nxtpdf::error::AppError;
use nxtpdf::pdf::document::blank;
use nxtpdf::pdf::forms::{
    appearance_with_size, create_field, decode_pdf_text, delete_field, encode_pdf_text, ensure_acro_form, find_field,
    font_size_token, has_acro_form, list_fields, rename_field, set_field_font_size, set_field_rect,
    set_field_value, CheckboxArt, FieldKind, NewField,
};
use nxtpdf::pdf::object::{object_from_lopdf, PdfObject};

/// A rectangle as the model stores it: lower-left corner first, or `None`
/// when it is under a point across or high.
fn rect_from(rect: [f32; 4]) -> Option<Vec<PdfObject>> {
    let [x0, y0, x1, y1] = rect;
    if (x1 - x0).abs() < 1.0 || (y1 - y0).abs() < 1.0 {
        return None;
    }
    Some(
        [x0.min(x1), y0.min(y1), x0.max(x1), y0.max(y1)]
            .iter()
            .map(|&n| object_from_lopdf(lopdf::Object::Real(n)))
            .collect(),
    )
}

/// A checkbox's appearance for a box `size` points high.
fn checkbox_art(size: f32) -> CheckboxArt {
    let box_size = size.max(1.0);
    let clear = format!("q 0.5 w 0 0 {box_size} {box_size} re S Q\n");
    let inset = box_size * 0.22;
    let mid = box_size * 0.45;
    let ticked = format!(
        "{clear}q 1.2 w {inset} {mid} m {mid} {inset} l {} {} l S Q\n",
        box_size - inset,
        box_size - inset
    );
    CheckboxArt {
        bbox: [0.0, 0.0, box_size, box_size]
            .iter()
            .map(|&n| object_from_lopdf(lopdf::Object::Real(n)))
            .collect(),
        ticked: ticked.into_bytes(),
        clear: clear.into_bytes(),
    }
}

fn field_spec(name: &str, kind: FieldKind, rect: [f32; 4], font_size: Option<f32>) -> NewField {
    NewField {
        page_index: 0,
        name: name.to_string(),
        kind,
        rect: rect_from(rect),
        font_size: format!("{}", font_size.unwrap_or(0.0)),
        multiline: false,
        required: false,
        max_length: None,
        options: Vec::new(),
        checkbox: checkbox_art((rect[3] - rect[1]).abs()),
    }
}

fn text_field(name: &str) -> NewField {
    field_spec(name, FieldKind::Text, [72.0, 600.0, 300.0, 620.0], Some(10.0))
}

fn numbers(rect: &[PdfObject]) -> Vec<f32> {
    rect.iter()
        .map(|object| match object {
            PdfObject::Real(real) => real.text().parse::<f32>().unwrap(),
            PdfObject::Integer(n) => *n as f32,
            _ => panic!("not a number"),
        })
        .collect()
}

fn font_size_from_appearance(appearance: &str) -> Option<f32> {
    font_size_token(appearance)?.parse().ok()
}

/// The text size as `/DA` spells it, or `None` outside 0 to 144.
fn size_text(size: f32) -> Option<String> {
    if (0.0..=144.0).contains(&size) {
        Some(format!("{size}"))
    } else {
        None
    }
}

#[test]
fn blank_document_has_no_form() {
    let doc = blank().unwrap();
    assert!(!has_acro_form(&doc));
    assert!(list_fields(&doc).is_empty());
}

#[test]
fn creating_a_field_establishes_the_form() {
    let mut doc = blank().unwrap();
    create_field(&mut doc, &text_field("full_name")).unwrap();

    assert!(has_acro_form(&doc));
    let fields = list_fields(&doc);
    assert_eq!(fields.len(), 1);
    assert_eq!(fields[0].name, "full_name");
    assert_eq!(fields[0].kind, FieldKind::Text);
    assert_eq!(fields[0].page_index, Some(0));
}

#[test]
fn duplicate_names_are_rejected() {
    let mut doc = blank().unwrap();
    create_field(&mut doc, &text_field("email")).unwrap();
    assert!(create_field(&mut doc, &text_field("email")).is_err());
}

#[test]
fn dotted_names_are_rejected() {
    let mut doc = blank().unwrap();
    assert!(create_field(&mut doc, &text_field("a.b")).is_err());
}

#[test]
fn degenerate_rectangles_are_rejected() {
    let mut doc = blank().unwrap();
    let mut spec = text_field("tiny");
    spec.rect = rect_from([10.0, 10.0, 10.2, 10.2]);
    assert!(create_field(&mut doc, &spec).is_err());
}

#[test]
fn text_values_round_trip() {
    let mut doc = blank().unwrap();
    create_field(&mut doc, &text_field("city")).unwrap();
    set_field_value(&mut doc, "city", "Zürich").unwrap();

    let fields = list_fields(&doc);
    assert_eq!(fields[0].value.as_deref(), Some("Zürich"));
}

#[test]
fn unknown_field_names_error() {
    let mut doc = blank().unwrap();
    create_field(&mut doc, &text_field("known")).unwrap();
    assert!(set_field_value(&mut doc, "unknown", "x").is_err());
}

#[test]
fn checkbox_toggles_between_states() {
    let mut doc = blank().unwrap();
    let spec = field_spec("agree", FieldKind::Checkbox, [72.0, 500.0, 90.0, 518.0], Some(10.0));
    create_field(&mut doc, &spec).unwrap();

    set_field_value(&mut doc, "agree", "true").unwrap();
    assert_eq!(list_fields(&doc)[0].value.as_deref(), Some("Yes"));

    set_field_value(&mut doc, "agree", "Off").unwrap();
    assert_eq!(list_fields(&doc)[0].value.as_deref(), Some("Off"));
}

/// The `/AS` appearance state of the widget holding the field `name`.
fn appearance_state(doc: &lopdf::Document, name: &str) -> Option<Vec<u8>> {
    doc.objects.values().find_map(|object| {
        let dict = object.as_dict().ok()?;
        let title = dict.get(b"T").ok()?.as_str().ok()?;
        if title != name.as_bytes() {
            return None;
        }
        Some(dict.get(b"AS").ok()?.as_name().ok()?.to_vec())
    })
}

#[test]
fn checkbox_widget_shows_the_state_set() {
    let mut doc = blank().unwrap();
    let spec = field_spec("agree", FieldKind::Checkbox, [72.0, 500.0, 90.0, 518.0], Some(10.0));
    create_field(&mut doc, &spec).unwrap();

    set_field_value(&mut doc, "agree", "true").unwrap();
    assert_eq!(appearance_state(&doc, "agree"), Some(b"Yes".to_vec()));

    set_field_value(&mut doc, "agree", "Off").unwrap();
    assert_eq!(appearance_state(&doc, "agree"), Some(b"Off".to_vec()));
}

#[test]
fn renaming_a_field_changes_its_name() {
    let mut doc = blank().unwrap();
    create_field(&mut doc, &text_field("old_name")).unwrap();
    set_field_value(&mut doc, "old_name", "keep me").unwrap();

    rename_field(&mut doc, "old_name", "new_name").unwrap();

    let fields = list_fields(&doc);
    assert_eq!(fields.len(), 1);
    assert_eq!(fields[0].name, "new_name");
    assert_eq!(fields[0].value.as_deref(), Some("keep me"));
}

#[test]
fn renaming_onto_an_existing_name_is_rejected() {
    let mut doc = blank().unwrap();
    create_field(&mut doc, &text_field("first")).unwrap();

    let mut second = text_field("second");
    second.rect = rect_from([72.0, 500.0, 300.0, 520.0]);
    create_field(&mut doc, &second).unwrap();

    assert!(rename_field(&mut doc, "first", "second").is_err());
}

#[test]
fn renaming_rejects_empty_and_dotted_names() {
    let mut doc = blank().unwrap();
    create_field(&mut doc, &text_field("field")).unwrap();
    assert!(rename_field(&mut doc, "field", "   ").is_err());
    assert!(rename_field(&mut doc, "field", "a.b").is_err());
}

#[test]
fn renaming_an_unknown_field_errors() {
    let mut doc = blank().unwrap();
    assert!(rename_field(&mut doc, "nope", "x").is_err());
}

#[test]
fn moving_a_field_updates_its_rectangle() {
    let mut doc = blank().unwrap();
    create_field(&mut doc, &text_field("movable")).unwrap();

    set_field_rect(&mut doc, "movable", rect_from([100.0, 100.0, 260.0, 124.0])).unwrap();

    let fields = list_fields(&doc);
    let rect = fields[0].rect.as_ref().unwrap();
    assert_eq!(numbers(rect), vec![100.0, 100.0, 260.0, 124.0]);
}

#[test]
fn moving_normalizes_inverted_rectangles() {
    let mut doc = blank().unwrap();
    create_field(&mut doc, &text_field("movable")).unwrap();

    set_field_rect(&mut doc, "movable", rect_from([260.0, 124.0, 100.0, 100.0])).unwrap();

    let fields = list_fields(&doc);
    let rect = fields[0].rect.as_ref().unwrap();
    assert_eq!(numbers(rect), vec![100.0, 100.0, 260.0, 124.0]);
}

#[test]
fn moving_rejects_a_degenerate_rectangle() {
    let mut doc = blank().unwrap();
    create_field(&mut doc, &text_field("movable")).unwrap();
    assert!(set_field_rect(&mut doc, "movable", rect_from([10.0, 10.0, 10.2, 10.2])).is_err());
}

#[test]
fn reads_font_size_from_an_appearance_string() {
    assert_eq!(font_size_from_appearance("/Helv 12 Tf 0 g"), Some(12.0));
    assert_eq!(font_size_from_appearance("/Helv 0 Tf 0 g"), Some(0.0));
    assert_eq!(font_size_from_appearance("0 g"), None);
    assert_eq!(font_size_from_appearance("Tf"), None);
}

#[test]
fn rewrites_size_but_keeps_font_and_colour() {
    assert_eq!(
        appearance_with_size(Some("/Arial 8 Tf 1 0 0 rg"), &format!("{}", 14.0f32)),
        "/Arial 14 Tf 1 0 0 rg"
    );
}

#[test]
fn builds_an_appearance_string_when_none_exists() {
    assert_eq!(appearance_with_size(None, &format!("{}", 11.0f32)), "/Helv 11 Tf 0 g");
}

#[test]
fn zero_means_auto_size() {
    assert_eq!(
        appearance_with_size(Some("/Helv 12 Tf 0 g"), &format!("{}", 0.0f32)),
        "/Helv 0 Tf 0 g"
    );
}

#[test]
fn font_size_round_trips_through_a_field() {
    let mut doc = blank().unwrap();
    create_field(&mut doc, &text_field("sized")).unwrap();

    set_field_font_size(&mut doc, "sized", size_text(18.0).as_deref()).unwrap();
    let size = list_fields(&doc)[0].font_size.clone();
    assert_eq!(size.and_then(|s| s.parse::<f32>().ok()), Some(18.0));

    set_field_font_size(&mut doc, "sized", size_text(0.0).as_deref()).unwrap();
    let size = list_fields(&doc)[0].font_size.clone();
    assert_eq!(size.and_then(|s| s.parse::<f32>().ok()), Some(0.0));
}

#[test]
fn font_size_is_range_checked() {
    let mut doc = blank().unwrap();
    create_field(&mut doc, &text_field("sized")).unwrap();
    // A size outside 0 to 144 has no `/DA` spelling; the library refuses it.
    assert!(size_text(-1.0).is_none() && size_text(500.0).is_none());
    match set_field_font_size(&mut doc, "sized", None) {
        Err(AppError::InvalidInput(message)) => assert!(message.contains("144")),
        other => panic!("expected a size error, got {other:?}"),
    }
}

#[test]
fn deleting_a_field_removes_it() {
    let mut doc = blank().unwrap();
    create_field(&mut doc, &text_field("temp")).unwrap();
    delete_field(&mut doc, "temp").unwrap();
    assert!(list_fields(&doc).is_empty());
}

#[test]
fn utf16_encoding_round_trips() {
    let text = "日本語";
    let encoded = encode_pdf_text(text);
    assert_eq!(decode_pdf_text(&encoded), text);
}

#[test]
fn latin1_stays_single_byte() {
    let encoded = encode_pdf_text("Cafe");
    assert_eq!(encoded.len(), 4);
    assert_eq!(decode_pdf_text(&encoded), "Cafe");
}

// --- Further cases -------------------------------------------------------

#[test]
fn non_latin_text_is_marked_as_utf16() {
    let encoded = encode_pdf_text("€");
    assert_eq!(encoded, vec![0xFE, 0xFF, 0x20, 0xAC]);
}

#[test]
fn latin1_characters_keep_their_code() {
    assert_eq!(encode_pdf_text("é"), vec![0xE9]);
    assert_eq!(decode_pdf_text(&[0xE9]), "é");
}

#[test]
fn an_empty_name_is_rejected() {
    let mut doc = blank().unwrap();
    let result = create_field(&mut doc, &text_field("  "));
    assert!(matches!(result, Err(AppError::InvalidInput(_))));
    assert!(!has_acro_form(&doc));
}

#[test]
fn a_field_on_a_missing_page_is_rejected() {
    let mut doc = blank().unwrap();
    let mut spec = text_field("elsewhere");
    spec.page_index = 3;
    assert!(matches!(create_field(&mut doc, &spec), Err(AppError::PageOutOfRange(3))));
}

#[test]
fn radio_buttons_cannot_be_created() {
    let mut doc = blank().unwrap();
    let spec = field_spec("choice", FieldKind::Radio, [72.0, 500.0, 90.0, 518.0], None);
    assert!(matches!(create_field(&mut doc, &spec), Err(AppError::InvalidInput(_))));
}

#[test]
fn a_choice_field_lists_its_options() {
    let mut doc = blank().unwrap();
    let mut spec = field_spec("colour", FieldKind::Choice, [72.0, 500.0, 200.0, 520.0], None);
    spec.options = vec!["Red".to_string(), "Green".to_string()];
    create_field(&mut doc, &spec).unwrap();
    let fields = list_fields(&doc);
    assert_eq!(fields[0].kind, FieldKind::Choice);
    assert_eq!(fields[0].options, vec!["Red".to_string(), "Green".to_string()]);
    set_field_value(&mut doc, "colour", "Green").unwrap();
    assert_eq!(list_fields(&doc)[0].value.as_deref(), Some("Green"));
}

#[test]
fn a_multiline_required_text_field_reports_its_flags() {
    let mut doc = blank().unwrap();
    let mut spec = text_field("notes");
    spec.multiline = true;
    spec.required = true;
    spec.max_length = Some(40);
    create_field(&mut doc, &spec).unwrap();
    let field = &list_fields(&doc)[0];
    assert!(field.multiline);
    assert!(field.required);
    assert!(!field.read_only);
    assert_eq!(field.max_length, Some(40));
    assert_eq!(field.font_size.as_deref(), Some("10"));
}

#[test]
fn a_checkbox_offers_its_on_state() {
    let mut doc = blank().unwrap();
    let spec = field_spec("agree", FieldKind::Checkbox, [72.0, 500.0, 90.0, 518.0], None);
    create_field(&mut doc, &spec).unwrap();
    let field = &list_fields(&doc)[0];
    assert_eq!(field.kind, FieldKind::Checkbox);
    assert_eq!(field.value.as_deref(), Some("Off"));
    assert_eq!(field.options, vec!["Yes".to_string()]);
}

#[test]
fn find_field_locates_a_created_field() {
    let mut doc = blank().unwrap();
    assert!(find_field(&doc, "zip").is_none());
    create_field(&mut doc, &text_field("zip")).unwrap();
    assert!(find_field(&doc, "zip").is_some());
}

#[test]
fn setting_an_unknown_field_names_it() {
    let mut doc = blank().unwrap();
    create_field(&mut doc, &text_field("real")).unwrap();
    match set_field_value(&mut doc, "ghost", "x") {
        Err(AppError::FieldNotFound(name)) => assert_eq!(name, "ghost"),
        _ => panic!("expected FieldNotFound"),
    }
}

#[test]
fn filling_a_document_without_a_form_is_refused() {
    let mut doc = blank().unwrap();
    assert!(matches!(set_field_value(&mut doc, "any", "x"), Err(AppError::NoAcroForm)));
}

#[test]
fn deleting_an_unknown_field_errors() {
    let mut doc = blank().unwrap();
    create_field(&mut doc, &text_field("kept")).unwrap();
    assert!(matches!(delete_field(&mut doc, "gone"), Err(AppError::FieldNotFound(_))));
    assert_eq!(list_fields(&doc).len(), 1);
}

#[test]
fn deleting_one_field_keeps_the_others() {
    let mut doc = blank().unwrap();
    create_field(&mut doc, &text_field("first")).unwrap();
    let mut second = text_field("second");
    second.rect = rect_from([72.0, 500.0, 300.0, 520.0]);
    create_field(&mut doc, &second).unwrap();
    delete_field(&mut doc, "first").unwrap();
    let names: Vec<String> = list_fields(&doc).into_iter().map(|field| field.name).collect();
    assert_eq!(names, vec!["second".to_string()]);
}

#[test]
fn font_size_on_an_unknown_field_errors() {
    let mut doc = blank().unwrap();
    assert!(matches!(
        set_field_font_size(&mut doc, "nope", Some("12")),
        Err(AppError::FieldNotFound(_))
    ));
}

#[test]
fn moving_an_unknown_field_errors() {
    let mut doc = blank().unwrap();
    assert!(matches!(
        set_field_rect(&mut doc, "nope", rect_from([0.0, 0.0, 50.0, 50.0])),
        Err(AppError::FieldNotFound(_))
    ));
}

#[test]
fn appearance_with_size_keeps_a_fractional_size() {
    assert_eq!(appearance_with_size(Some("/F1 9 Tf"), "10.5"), "/F1 10.5 Tf");
    assert_eq!(appearance_with_size(Some("Tf 0 g"), "8"), "/Helv 8 Tf 0 g");
}

#[test]
fn a_new_text_size_drops_the_baked_appearance() {
    let mut doc = blank().unwrap();
    let spec = field_spec("tick", FieldKind::Checkbox, [72.0, 500.0, 90.0, 518.0], Some(10.0));
    create_field(&mut doc, &spec).unwrap();
    let id = find_field(&doc, "tick").expect("field");
    assert!(doc.get_dictionary(id).unwrap().has(b"AP"));

    set_field_font_size(&mut doc, "tick", Some("14")).unwrap();
    let widget = doc.get_dictionary(id).unwrap();
    assert!(!widget.has(b"AP"));
    let da = widget.get(b"DA").unwrap().as_str().unwrap();
    assert_eq!(da, b"/Helv 14 Tf 0 g");
}

#[test]
fn a_written_size_reads_back() {
    for appearance in [None, Some("/Arial 8 Tf 1 0 0 rg"), Some("0 g"), Some("Tf 3 g")] {
        let rewritten = appearance_with_size(appearance, "14");
        assert_eq!(font_size_token(&rewritten).as_deref(), Some("14"));
    }
}

#[test]
fn a_deleted_field_leaves_the_form_list() {
    let mut doc = blank().unwrap();
    create_field(&mut doc, &text_field("keep")).unwrap();
    create_field(&mut doc, &text_field("drop")).unwrap();
    let dropped = find_field(&doc, "drop").expect("field");
    delete_field(&mut doc, "drop").unwrap();

    let names: Vec<String> = list_fields(&doc).into_iter().map(|f| f.name).collect();
    assert_eq!(names, vec!["keep".to_string()]);
    let catalog = doc.trailer.get(b"Root").unwrap().as_reference().unwrap();
    let form = doc.get_dictionary(catalog).unwrap().get(b"AcroForm").unwrap().as_reference().unwrap();
    let fields = doc.get_dictionary(form).unwrap().get(b"Fields").unwrap().as_array().unwrap();
    assert!(fields.iter().all(|entry| entry.as_reference().ok() != Some(dropped)));
    assert_eq!(fields.len(), 1);

    let page = doc.page_iter().next().expect("page");
    let annots = doc.get_dictionary(page).unwrap().get(b"Annots").unwrap().as_array().unwrap();
    assert!(annots.iter().all(|entry| entry.as_reference().ok() != Some(dropped)));
    assert_eq!(annots.len(), 1);
}

#[test]
fn zero_and_lowercase_off_tick_a_checkbox() {
    let mut doc = blank().unwrap();
    let spec = field_spec("agree", FieldKind::Checkbox, [72.0, 500.0, 90.0, 518.0], Some(10.0));
    create_field(&mut doc, &spec).unwrap();

    set_field_value(&mut doc, "agree", "0").unwrap();
    assert_eq!(list_fields(&doc)[0].value.as_deref(), Some("Yes"));

    set_field_value(&mut doc, "agree", "false").unwrap();
    assert_eq!(list_fields(&doc)[0].value.as_deref(), Some("Off"));

    set_field_value(&mut doc, "agree", "off").unwrap();
    assert_eq!(list_fields(&doc)[0].value.as_deref(), Some("Yes"));
}

#[test]
fn an_inline_form_keeps_its_fields() {
    let mut doc = blank().unwrap();
    let mut field = lopdf::Dictionary::new();
    field.set("FT", lopdf::Object::Name(b"Tx".to_vec()));
    field.set("T", lopdf::Object::String(b"kept".to_vec(), lopdf::StringFormat::Literal));
    let field_id = doc.add_object(lopdf::Object::Dictionary(field));
    let mut inline = lopdf::Dictionary::new();
    inline.set("Fields", lopdf::Object::Array(vec![lopdf::Object::Reference(field_id)]));
    let catalog_id = doc.trailer.get(b"Root").unwrap().as_reference().unwrap();
    doc.get_dictionary_mut(catalog_id)
        .unwrap()
        .set("AcroForm", lopdf::Object::Dictionary(inline));

    let form_id = ensure_acro_form(&mut doc).unwrap();
    let catalog = doc.get_dictionary(catalog_id).unwrap();
    assert_eq!(catalog.get(b"AcroForm").unwrap().as_reference().unwrap(), form_id);
    let fields = doc.get_dictionary(form_id).unwrap().get(b"Fields").unwrap().as_array().unwrap().clone();
    assert_eq!(fields, vec![lopdf::Object::Reference(field_id)]);
    let names: Vec<String> = list_fields(&doc).into_iter().map(|f| f.name).collect();
    assert_eq!(names, vec!["kept".to_string()]);
}

#[test]
fn an_unsupported_kind_is_refused_after_the_form_is_ensured() {
    let mut doc = blank().unwrap();
    let spec = field_spec("press", FieldKind::PushButton, [72.0, 500.0, 90.0, 518.0], None);
    match create_field(&mut doc, &spec) {
        Err(AppError::InvalidInput(message)) => {
            assert_eq!(message, "Creating PushButton fields is not supported yet.")
        }
        other => panic!("expected a refusal, got {other:?}"),
    }
    // The catalog now names a form, which lists no field yet.
    let catalog_id = doc.trailer.get(b"Root").unwrap().as_reference().unwrap();
    let form_id = doc.get_dictionary(catalog_id).unwrap().get(b"AcroForm").unwrap().as_reference().unwrap();
    assert!(doc.get_dictionary(form_id).unwrap().get(b"Fields").unwrap().as_array().unwrap().is_empty());
    assert!(!has_acro_form(&doc));
    assert!(list_fields(&doc).is_empty());
}

#[test]
fn a_new_field_is_listed_after_the_existing_ones() {
    let mut doc = blank().unwrap();
    create_field(&mut doc, &text_field("first")).unwrap();
    create_field(&mut doc, &text_field("second")).unwrap();
    let names: Vec<String> = list_fields(&doc).into_iter().map(|f| f.name).collect();
    assert_eq!(names, vec!["first".to_string(), "second".to_string()]);
    let page = nxtpdf::pdf::document::page_ids(&doc)[0];
    let annots = doc.get_dictionary(page).unwrap().get(b"Annots").unwrap().as_array().unwrap().len();
    assert_eq!(annots, 2);
}
