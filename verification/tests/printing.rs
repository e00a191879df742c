use nxtpdf::printing::types::{ColorMode, DuplexMode, Orientation, PageScaling, PrintSettings};
use nxtpdf::printing::windows::{
    decode_status, from_wide, paper_entries, paper_sources, resolutions, rgba_to_bgra, split_names,
    DevModeFields, DM_COLLATE, DM_COLOR, DM_COPIES,
    DM_DEFAULTSOURCE, DM_DUPLEX, DM_ORIENTATION, DM_PAPERSIZE,
};

fn settings() -> PrintSettings {
    PrintSettings {
        printer_name: "Test".into(),
        pages: None,
        copies: 1,
        collate: true,
        duplex: DuplexMode::Simplex,
        color: ColorMode::Color,
        paper_source_id: None,
        paper_size_id: None,
        orientation: Orientation::Auto,
        scaling: PageScaling::FitToPage,
        reverse_order: false,
        job_name: "job".into(),
    }
}

#[test]
fn none_means_every_page() {
    assert_eq!(settings().resolve_pages(3).unwrap(), vec![0, 1, 2]);
}

#[test]
fn reverse_order_flips_the_list() {
    let mut s = settings();
    s.reverse_order = true;
    assert_eq!(s.resolve_pages(3).unwrap(), vec![2, 1, 0]);
}

#[test]
fn explicit_selection_is_preserved_in_order() {
    let mut s = settings();
    s.pages = Some(vec![2, 0]);
    assert_eq!(s.resolve_pages(3).unwrap(), vec![2, 0]);
}

#[test]
fn out_of_range_pages_are_rejected() {
    let mut s = settings();
    s.pages = Some(vec![5]);
    assert!(s.resolve_pages(3).is_err());
}

#[test]
fn empty_selection_is_rejected() {
    let mut s = settings();
    s.pages = Some(vec![]);
    assert!(s.resolve_pages(3).is_err());
}

#[test]
fn channel_swap_produces_bgra() {
    let mut pixels = vec![1u8, 2, 3, 4];
    rgba_to_bgra(&mut pixels);
    assert_eq!(pixels, vec![3, 2, 1, 4]);
}

#[test]
fn status_prefers_the_most_urgent_flag() {
    assert_eq!(decode_status(0x80, 0), "Offline");
    assert_eq!(decode_status(0, 0), "Ready");
    assert_eq!(decode_status(0, 2), "2 job(s) queued");
}

// --- Further cases -------------------------------------------------------

#[test]
fn an_out_of_range_page_is_named_one_based() {
    let mut s = settings();
    s.pages = Some(vec![0, 7]);
    assert_eq!(s.resolve_pages(3).unwrap_err(), "Page 8 does not exist (document has 3).");
}

#[test]
fn an_empty_selection_says_so() {
    let mut s = settings();
    s.pages = Some(vec![]);
    assert_eq!(s.resolve_pages(3).unwrap_err(), "No pages selected to print.");
}

#[test]
fn reverse_order_applies_to_an_explicit_selection() {
    let mut s = settings();
    s.pages = Some(vec![0, 2, 1]);
    s.reverse_order = true;
    assert_eq!(s.resolve_pages(3).unwrap(), vec![1, 2, 0]);
}

#[test]
fn a_document_without_pages_prints_nothing() {
    assert_eq!(settings().resolve_pages(0).unwrap(), Vec::<usize>::new());
}

#[test]
fn channel_swap_handles_several_pixels_and_a_partial_tail() {
    let mut pixels = vec![1u8, 2, 3, 4, 5, 6, 7, 8, 9, 10];
    rgba_to_bgra(&mut pixels);
    assert_eq!(pixels, vec![3, 2, 1, 4, 7, 6, 5, 8, 9, 10]);
}

#[test]
fn status_with_no_flag_but_an_error() {
    assert_eq!(decode_status(0x2, 5), "Error");
    assert_eq!(decode_status(0x8, 0), "Paper jam");
}

#[test]
fn a_wide_buffer_stops_at_the_first_nul() {
    let buffer: Vec<u16> = "Printer\0junk".encode_utf16().collect();
    assert_eq!(from_wide(&buffer), "Printer");
    let unterminated: Vec<u16> = "Tray".encode_utf16().collect();
    assert_eq!(from_wide(&unterminated), "Tray");
}

#[test]
fn fixed_width_names_are_split_slot_by_slot() {
    let mut buffer: Vec<u16> = Vec::new();
    for name in ["Upper", "", "Lower"] {
        let mut slot: Vec<u16> = name.encode_utf16().collect();
        slot.resize(8, 0);
        buffer.extend(slot);
    }
    buffer.extend("Tail".encode_utf16());
    assert_eq!(
        split_names(&buffer, 8),
        vec!["Upper".to_string(), String::new(), "Lower".to_string(), "Tail".to_string()]
    );
}

fn driver_defaults() -> DevModeFields {
    DevModeFields {
        fields: 0,
        duplex: 1,
        color: 2,
        collate: 0,
        copies: 1,
        default_source: 7,
        paper_size: 9,
        orientation: 1,
    }
}

#[test]
fn applied_settings_reach_every_member_they_name() {
    let mut mode = driver_defaults();
    let mut s = settings();
    s.duplex = DuplexMode::LongEdge;
    s.color = ColorMode::Monochrome;
    s.collate = false;
    s.copies = 3;
    s.paper_source_id = Some(15);
    s.orientation = Orientation::Auto;
    mode.apply(&s, true);
    assert_eq!(mode.duplex, 2);
    assert_eq!(mode.color, 1);
    assert_eq!(mode.collate, 0);
    assert_eq!(mode.copies, 3);
    assert_eq!(mode.default_source, 15);
    // No paper size asked for: the driver's own stays, and is not marked.
    assert_eq!(mode.paper_size, 9);
    assert_eq!(mode.orientation, 2);
    assert_eq!(
        mode.fields,
        DM_DUPLEX | DM_COLOR | DM_COLLATE | DM_COPIES | DM_DEFAULTSOURCE | DM_ORIENTATION
    );
    assert_eq!(mode.fields & DM_PAPERSIZE, 0);
}

#[test]
fn copies_are_kept_within_what_a_driver_holds() {
    let mut mode = driver_defaults();
    let mut s = settings();
    s.copies = 0;
    mode.apply(&s, false);
    assert_eq!(mode.copies, 1);
    s.copies = 100_000;
    mode.apply(&s, false);
    assert_eq!(mode.copies, i16::MAX);
    assert_eq!(mode.orientation, 1);
}

#[test]
fn a_driver_that_kept_everything_warns_of_nothing() {
    let mut mode = driver_defaults();
    let mut s = settings();
    s.paper_source_id = Some(4);
    s.paper_size_id = Some(1);
    mode.apply(&s, false);
    assert!(mode.diff_warnings(&s).is_empty());
}

#[test]
fn every_override_is_reported_in_order() {
    let mode = driver_defaults();
    let mut s = settings();
    s.duplex = DuplexMode::ShortEdge;
    s.color = ColorMode::Monochrome;
    s.paper_source_id = Some(-3);
    s.paper_size_id = Some(1);
    assert_eq!(
        mode.diff_warnings(&s),
        vec![
            "The driver overrode the two-sided setting; this printer may not support it.".to_string(),
            "The driver overrode the color setting.".to_string(),
            "The driver rejected the selected tray and chose 7 instead.".to_string(),
            "The driver rejected the selected paper size.".to_string(),
        ]
    );
}

#[test]
fn trays_without_a_name_are_numbered() {
    let names = vec!["Upper".to_string(), String::new()];
    let trays = paper_sources(&[1, 4, 7], &names);
    let listed: Vec<(i16, &str)> = trays.iter().map(|t| (t.id, t.name.as_str())).collect();
    assert_eq!(listed, vec![(1, "Upper"), (4, "Tray 4"), (7, "Tray 7")]);
}

#[test]
fn paper_sizes_take_their_dimensions_in_pairs() {
    let names = vec!["Letter".to_string()];
    let sizes = paper_entries(&[1, 9], &names, &[2159, 2794, 2100]);
    assert_eq!(sizes[0].name, "Letter");
    assert_eq!((sizes[0].width_tenths_mm, sizes[0].height_tenths_mm), (Some(2159), Some(2794)));
    assert_eq!(sizes[1].name, "Paper 9");
    assert_eq!((sizes[1].width_tenths_mm, sizes[1].height_tenths_mm), (Some(2100), None));
}

#[test]
fn resolutions_come_in_pairs() {
    let listed = resolutions(&[300, 300, 600, 1200, 72]);
    assert_eq!(listed.len(), 2);
    assert_eq!((listed[1].x_dpi, listed[1].y_dpi), (600, 1200));
}

#[test]
fn driver_settings_read_as_dialog_defaults() {
    let mut mode = driver_defaults();
    mode.duplex = 3;
    mode.color = 1;
    mode.orientation = 2;
    mode.copies = 0;
    mode.collate = 1;
    let defaults = mode.printer_defaults();
    assert_eq!(defaults.duplex, DuplexMode::ShortEdge);
    assert_eq!(defaults.color, ColorMode::Monochrome);
    assert_eq!(defaults.orientation, Orientation::Landscape);
    assert_eq!(defaults.copies, 1);
    assert!(defaults.collate);
    assert_eq!(defaults.paper_source_id, Some(7));
    assert_eq!(defaults.paper_size_id, Some(9));
}
