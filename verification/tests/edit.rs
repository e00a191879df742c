use std::collections::HashMap;

use lopdf::{Dictionary, Object, Stream};
use nxtpdf::pdf::content::ContentOp;
use nxtpdf::pdf::document::blank;
use nxtpdf::pdf::edit::{
    form_to_walk, plan_text_edit, spell_in_font, text_params_at, text_shows, EditOutcome, OperandAt,
    TextParams, MAX_XOBJECT_DEPTH,
};
use nxtpdf::pdf::fonts::FontCoding;
use nxtpdf::pdf::object::{object_from_lopdf, PdfDict, PdfObject, TextFormat};

fn op(operator: &str, operands: Vec<PdfObject>) -> ContentOp {
    ContentOp { operator: operator.to_string(), operands }
}

fn name(bytes: &[u8]) -> PdfObject {
    PdfObject::Name(bytes.to_vec())
}

fn text(bytes: &[u8]) -> PdfObject {
    PdfObject::Text(bytes.to_vec(), TextFormat::Literal)
}

fn shown(op: &ContentOp) -> Vec<u8> {
    match op.operands.last() {
        Some(PdfObject::Text(bytes, _)) => bytes.clone(),
        _ => panic!("no string"),
    }
}

/// A simple font that spells `A`, `B` and space.
fn coding(embedded: bool) -> FontCoding {
    let mut from_unicode = HashMap::new();
    from_unicode.insert('A' as u32, 0x41u8);
    from_unicode.insert('B' as u32, 0x42u8);
    from_unicode.insert(' ' as u32, 0x20u8);
    FontCoding { two_byte: false, to_unicode: HashMap::new(), from_unicode, embedded }
}

#[test]
fn fonts_follow_the_graphics_state_stack() {
    let ops = vec![
        op("Tf", vec![name(b"F1"), PdfObject::Integer(12)]),
        op("q", vec![]),
        op("Tf", vec![name(b"F2"), PdfObject::Integer(9)]),
        op("Tj", vec![text(b"inner")]),
        op("Q", vec![]),
        op("BT", vec![]),
        op("Tj", vec![text(b"outer")]),
        op("ET", vec![]),
    ];
    assert_eq!(text_shows(&ops), vec![(3, b"F2".to_vec()), (6, b"F1".to_vec())]);
}

#[test]
fn an_unbalanced_restore_keeps_the_font() {
    let ops = vec![op("Tf", vec![name(b"F1")]), op("Q", vec![]), op("'", vec![text(b"x")])];
    assert_eq!(text_shows(&ops), vec![(2, b"F1".to_vec())]);
}

#[test]
fn a_font_that_spells_the_text_writes_it() {
    assert_eq!(spell_in_font(&coding(false), "AB A", None), Some(b"AB A".to_vec()));
    assert_eq!(spell_in_font(&coding(false), "AC", None), None);
}

#[test]
fn an_embedded_font_writes_only_codes_in_use() {
    let used = [0x41u32, 0x42];
    assert_eq!(spell_in_font(&coding(true), "BA", Some(&used)), Some(b"BA".to_vec()));
    assert_eq!(spell_in_font(&coding(true), "A B", Some(&used)), None);
    assert_eq!(spell_in_font(&coding(true), "A", None), None);
}

#[test]
fn an_edit_in_place_rewrites_the_first_operation_and_empties_the_rest() {
    let ops = vec![
        op("BT", vec![]),
        op("Tj", vec![text(b"Hel")]),
        op("Td", vec![PdfObject::Integer(5), PdfObject::Integer(0)]),
        op("Tj", vec![text(b"lo")]),
        op("ET", vec![]),
    ];
    let (outcome, rewritten) = plan_text_edit(ops, &[1, 3], Some(b"AB".to_vec()));
    assert!(matches!(outcome, EditOutcome::InPlace));
    let rewritten = rewritten.unwrap();
    assert_eq!(rewritten.len(), 5);
    assert_eq!(shown(&rewritten[1]), b"AB".to_vec());
    assert_eq!(shown(&rewritten[3]), Vec::<u8>::new());
    assert_eq!(rewritten[2].operator, "Td");
}

#[test]
fn an_unspellable_edit_empties_every_operation_of_the_run() {
    let ops = vec![op("Tj", vec![text(b"one")]), op("Tj", vec![text(b"two")])];
    let (outcome, rewritten) = plan_text_edit(ops, &[0, 1], None);
    assert!(matches!(outcome, EditOutcome::Redrawn));
    let rewritten = rewritten.unwrap();
    assert_eq!(shown(&rewritten[0]), Vec::<u8>::new());
    assert_eq!(shown(&rewritten[1]), Vec::<u8>::new());
}

#[test]
fn a_stream_with_an_inline_image_is_not_rewritten() {
    let ops = vec![op("BI", vec![]), op("Tj", vec![text(b"x")])];
    let (outcome, rewritten) = plan_text_edit(ops, &[1], Some(b"A".to_vec()));
    assert!(matches!(outcome, EditOutcome::Redrawn));
    assert!(rewritten.is_none());
}

#[test]
fn the_walk_descends_only_into_unseen_forms_within_the_limit() {
    let mut doc = blank().unwrap();
    let mut form_dict = Dictionary::new();
    form_dict.set("Type", Object::Name(b"XObject".to_vec()));
    form_dict.set("Subtype", Object::Name(b"Form".to_vec()));
    let form_id = doc.add_object(Object::Stream(Stream::new(form_dict, b"BT ET".to_vec())));
    let mut image_dict = Dictionary::new();
    image_dict.set("Subtype", Object::Name(b"Image".to_vec()));
    let image_id = doc.add_object(Object::Stream(Stream::new(image_dict, vec![0])));

    let mut xobjects = Dictionary::new();
    xobjects.set("Fm1", Object::Reference(form_id));
    xobjects.set("Im1", Object::Reference(image_id));
    let xobjects = match object_from_lopdf(Object::Dictionary(xobjects)) {
        PdfObject::Dictionary(dict) => dict,
        _ => unreachable!(),
    };

    let found = form_to_walk(&doc, &xobjects, b"Fm1", 0, &[]);
    assert_eq!(found.map(|(id, _)| id), Some(form_id));
    assert!(form_to_walk(&doc, &xobjects, b"Fm1", 0, &[form_id]).is_none());
    assert!(form_to_walk(&doc, &xobjects, b"Fm1", MAX_XOBJECT_DEPTH, &[]).is_none());
    assert!(form_to_walk(&doc, &xobjects, b"Im1", 0, &[]).is_none());
    assert!(form_to_walk(&doc, &PdfDict::new(), b"Fm1", 0, &[]).is_none());
}

fn at(operation: usize, operand: usize) -> Option<OperandAt> {
    Some(OperandAt { operation, operand, negated: false })
}

#[test]
fn the_text_state_follows_the_graphics_state_stack() {
    let ops = vec![
        op("Tf", vec![name(b"F1"), PdfObject::Integer(12)]),
        op("Tc", vec![PdfObject::Integer(1)]),
        op("q", vec![]),
        op("Tf", vec![name(b"F2"), PdfObject::Integer(9)]),
        op("TD", vec![PdfObject::Integer(0), PdfObject::Integer(-14)]),
        op("\"", vec![PdfObject::Integer(2), PdfObject::Integer(3), text(b"x")]),
        op("Q", vec![]),
        op("Tj", vec![text(b"y")]),
    ];
    let params = text_params_at(&ops);
    assert_eq!(params.len(), ops.len());
    let unset = TextParams {
        size: None,
        char_spacing: None,
        word_spacing: None,
        horizontal_scale: None,
        leading: None,
        rise: None,
    };
    let outer = TextParams { size: at(0, 1), char_spacing: at(1, 0), ..unset };
    assert_eq!(params[0], TextParams { size: at(0, 1), ..unset });
    assert_eq!(params[1], outer);
    assert_eq!(params[2], outer);
    assert_eq!(params[3], TextParams { size: at(3, 1), ..outer });
    let leading = Some(OperandAt { operation: 4, operand: 1, negated: true });
    assert_eq!(params[4], TextParams { size: at(3, 1), leading, ..outer });
    assert_eq!(
        params[5],
        TextParams { size: at(3, 1), leading, word_spacing: at(5, 0), char_spacing: at(5, 1), ..unset }
    );
    // `Q` brings back what `q` saved; the show after it draws with that.
    assert_eq!(params[6], outer);
    assert_eq!(params[7], outer);
}

#[test]
fn an_unbalanced_restore_keeps_the_text_state() {
    let ops = vec![
        op("Tz", vec![PdfObject::Integer(50)]),
        op("Q", vec![]),
        op("Ts", vec![PdfObject::Integer(4)]),
        op("TL", vec![PdfObject::Integer(12)]),
        op("Tw", vec![PdfObject::Integer(1)]),
    ];
    let params = text_params_at(&ops);
    assert_eq!(params[1].horizontal_scale, at(0, 0));
    assert_eq!(params[2].rise, at(2, 0));
    assert_eq!(params[3].leading, at(3, 0));
    assert_eq!(params[4].word_spacing, at(4, 0));
    assert_eq!(params[4].horizontal_scale, at(0, 0));
}
