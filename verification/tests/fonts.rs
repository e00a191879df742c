use nxtpdf::pdf::document::blank;
use nxtpdf::pdf::fonts::{read_font_coding, FontCoding};
use nxtpdf::pdf::object::{PdfDict, PdfObject};

fn name(text: &str) -> PdfObject {
    PdfObject::Name(text.as_bytes().to_vec())
}

fn dict(entries: Vec<(&str, PdfObject)>) -> PdfDict {
    PdfDict { entries: entries.into_iter().map(|(key, value)| (key.as_bytes().to_vec(), value)).collect() }
}

#[test]
fn the_fallback_reads_and_writes_printable_ascii() {
    let coding = FontCoding::fallback();
    assert_eq!(coding.decode(b"Hi!"), "Hi!");
    assert_eq!(coding.decode(&[0x7F]), "\u{FFFD}");
    assert_eq!(coding.encode("OK"), Some(b"OK".to_vec()));
    assert_eq!(coding.encode("é"), None);
}

#[test]
fn two_byte_codes_pair_up_big_endian() {
    let doc = blank().unwrap();
    let coding = read_font_coding(&doc, dict(vec![("Subtype", name("Type0"))]));
    assert!(coding.two_byte);
    assert_eq!(coding.codes(&[0x01, 0x02, 0x03]), vec![0x0102, 0x03]);
    assert_eq!(coding.encode("A"), None);
    assert_eq!(coding.decode(&[0x00, 0x41]), "\u{FFFD}");
}

#[test]
fn a_simple_font_reads_latin1_and_win_ansi() {
    let doc = blank().unwrap();
    let coding = read_font_coding(&doc, dict(vec![("Subtype", name("Type1"))]));
    assert!(!coding.two_byte);
    assert_eq!(coding.decode(&[0x41, 0xE9, 0x80]), "Aé€");
    assert_eq!(coding.encode("€A"), Some(vec![0x80, 0x41]));
    assert!(!coding.embedded);
}

#[test]
fn differences_rename_codes_from_their_start() {
    let doc = blank().unwrap();
    let differences = PdfObject::Array(vec![PdfObject::Integer(65), name("space"), name("seven")]);
    let encoding = PdfObject::Dictionary(dict(vec![("Differences", differences)]));
    let coding = read_font_coding(&doc, dict(vec![("Subtype", name("Type1")), ("Encoding", encoding)]));
    assert_eq!(coding.decode(b"AB"), " 7");
    // The first code for a character is the one used to write it.
    assert_eq!(coding.encode("7"), Some(vec![0x37]));
}

#[test]
fn an_embedded_descriptor_is_noticed() {
    let doc = blank().unwrap();
    let descriptor = PdfObject::Dictionary(dict(vec![("FontFile2", PdfObject::Integer(0))]));
    let coding = read_font_coding(&doc, dict(vec![("Subtype", name("TrueType")), ("FontDescriptor", descriptor)]));
    assert!(coding.embedded);
}
