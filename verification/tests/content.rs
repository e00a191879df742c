use nxtpdf::pdf::content::{
    clear_shown_text, ensure_helvetica, font_name_at, page_resources, replace_shown_text, shown_parts,
    stream_content, write_content, write_stream_content, ContentOp, Shown,
};
use nxtpdf::pdf::document::{blank, get_dictionary, page_ids};
use nxtpdf::pdf::object::{PdfObject, TextFormat};

fn text(value: &str) -> PdfObject {
    PdfObject::Text(value.as_bytes().to_vec(), TextFormat::Literal)
}

fn op(operator: &str, operands: Vec<PdfObject>) -> ContentOp {
    ContentOp { operator: operator.to_string(), operands }
}

fn pieces(parts: &[Shown]) -> Vec<String> {
    parts
        .iter()
        .map(|part| match part {
            Shown::Text(bytes) => String::from_utf8_lossy(bytes).into_owned(),
            Shown::Adjust(PdfObject::Integer(n)) => format!("<{n}>"),
            Shown::Adjust(PdfObject::Real(r)) => format!("<{}>", r.text()),
            Shown::Adjust(_) => "?".to_string(),
        })
        .collect()
}

#[test]
fn a_tj_array_yields_strings_and_kerning() {
    let shown = shown_parts(&op("TJ", vec![PdfObject::Array(vec![text("A"), PdfObject::Integer(-120), text("B")])]));
    assert_eq!(pieces(&shown), vec!["A", "<-120>", "B"]);
}

#[test]
fn quote_operators_show_their_last_operand() {
    let shown = shown_parts(&op("\"", vec![PdfObject::Integer(1), PdfObject::Integer(2), text("line")]));
    assert_eq!(pieces(&shown), vec!["line"]);
    assert!(shown_parts(&op("Td", vec![PdfObject::Integer(1), PdfObject::Integer(2)])).is_empty());
}

#[test]
fn replacing_collapses_a_tj_array() {
    let mut operation = op("TJ", vec![PdfObject::Array(vec![text("A"), PdfObject::Integer(-120), text("B")])]);
    replace_shown_text(&mut operation, b"New".to_vec());
    assert_eq!(pieces(&shown_parts(&operation)), vec!["New"]);
}

#[test]
fn clearing_keeps_a_quote_operator_and_its_numbers() {
    let mut operation = op("\"", vec![PdfObject::Integer(1), PdfObject::Integer(2), text("line")]);
    clear_shown_text(&mut operation);
    assert_eq!(operation.operator, "\"");
    assert_eq!(operation.operands.len(), 3);
    assert_eq!(pieces(&shown_parts(&operation)), vec![""]);
}

#[test]
fn the_font_in_effect_is_the_last_tf_before() {
    let ops = vec![
        op("BT", vec![]),
        op("Tf", vec![PdfObject::Name(b"F1".to_vec()), PdfObject::Integer(12)]),
        op("Tj", vec![text("a")]),
        op("Tf", vec![PdfObject::Name(b"F2".to_vec()), PdfObject::Integer(9)]),
        op("Tj", vec![text("b")]),
    ];
    assert_eq!(font_name_at(&ops, 2), b"F1".to_vec());
    assert_eq!(font_name_at(&ops, 4), b"F2".to_vec());
    assert_eq!(font_name_at(&ops, 0), Vec::<u8>::new());
    assert_eq!(font_name_at(&ops, 99), b"F2".to_vec());
}

#[test]
fn a_blank_page_has_its_empty_resources() {
    let doc = blank().unwrap();
    let page = page_ids(&doc)[0];
    assert!(page_resources(&doc, page).entries.is_empty());
}

#[test]
fn helvetica_is_added_to_the_page_fonts() {
    let mut doc = blank().unwrap();
    let page = page_ids(&doc)[0];
    let font = ensure_helvetica(&mut doc, page).unwrap();
    let resources = page_resources(&doc, page);
    match resources.get(b"Font") {
        Some(PdfObject::Dictionary(fonts)) => {
            assert!(matches!(fonts.get(b"NxHelv"), Some(PdfObject::Reference(id)) if *id == font));
        }
        _ => panic!("no fonts"),
    }
}

#[test]
fn page_content_round_trips_through_the_writer() {
    let mut doc = blank().unwrap();
    let page = page_ids(&doc)[0];
    let ops = vec![op("BT", vec![]), op("Tj", vec![text("Hello")]), op("ET", vec![])];
    write_stream_content(&mut doc, page, None, ops).unwrap();
    let read = stream_content(&doc, page, None).unwrap();
    let operators: Vec<String> = read.iter().map(|o| o.operator.clone()).collect();
    assert_eq!(operators, vec!["BT", "Tj", "ET"]);
    assert_eq!(pieces(&shown_parts(&read[1])), vec!["Hello"]);
}

#[test]
fn writing_content_points_the_page_at_a_new_stream() {
    let mut doc = blank().unwrap();
    let page = page_ids(&doc)[0];
    write_content(&mut doc, page, b"0 g".to_vec()).unwrap();
    let dict = get_dictionary(&doc, page).unwrap();
    assert!(matches!(dict.get(b"Contents"), Some(PdfObject::Reference(_))));
}

#[test]
fn an_unknown_stream_cannot_be_rewritten() {
    let mut doc = blank().unwrap();
    let page = page_ids(&doc)[0];
    let result = write_stream_content(&mut doc, page, Some((999, 0)), vec![op("BT", vec![])]);
    assert!(result.is_err());
    assert!(stream_content(&doc, page, Some((999, 0))).is_err());
}
