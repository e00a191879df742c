use nxtpdf::request::{parse_page_request, pdf_path_from_args};

fn existing(args: &[String]) -> Vec<bool> {
    args.iter().map(|arg| std::path::Path::new(arg).is_file()).collect()
}

/// The request as the page handler reads it, the dpi as a number.
fn page_request(path: &str) -> Option<(u64, usize, f32)> {
    let (document, index, dpi) = parse_page_request(path)?;
    Some((document, index, dpi.parse::<f32>().ok()?))
}

#[test]
fn ignores_the_executable_and_flags() {
    let args: Vec<String> = ["nxtpdf.exe", "--flag", "-v"].iter().map(|s| s.to_string()).collect();
    assert_eq!(pdf_path_from_args(&args, &existing(&args)), None);
}

#[test]
fn ignores_paths_that_are_not_pdfs() {
    let args: Vec<String> = ["nxtpdf.exe", "notes.txt"].iter().map(|s| s.to_string()).collect();
    assert_eq!(pdf_path_from_args(&args, &existing(&args)), None);
}

#[test]
fn parses_a_well_formed_page_url() {
    assert_eq!(page_request("/page/2/3/150/7"), Some((2, 3, 150.0)));
}

#[test]
fn tolerates_a_missing_leading_slash() {
    assert_eq!(page_request("page/1/0/96/1"), Some((1, 0, 96.0)));
}

#[test]
fn rejects_the_wrong_prefix() {
    assert_eq!(page_request("/thumb/1/0/96/1"), None);
}

#[test]
fn rejects_a_non_numeric_index() {
    assert_eq!(page_request("/page/1/x/96/1"), None);
}

#[test]
fn rejects_a_url_missing_the_document_id() {
    assert_eq!(page_request("/page/0/96"), None);
}

#[test]
fn rejects_a_truncated_url() {
    assert_eq!(page_request("/page/1/0"), None);
}

// --- Further cases -------------------------------------------------------

#[test]
fn an_existing_pdf_after_the_flags_is_picked_in_any_case() {
    let args: Vec<String> =
        ["nxtpdf.exe", "--some-flag", "Report.PDF"].iter().map(|s| s.to_string()).collect();
    assert_eq!(
        pdf_path_from_args(&args, &[false, false, true]),
        Some("Report.PDF".to_string())
    );
}

#[test]
fn a_pdf_that_is_not_a_file_is_skipped() {
    let args: Vec<String> =
        ["nxtpdf.exe", "gone.pdf", "here.pdf"].iter().map(|s| s.to_string()).collect();
    assert_eq!(pdf_path_from_args(&args, &[false, false, true]), Some("here.pdf".to_string()));
}

#[test]
fn the_program_itself_is_never_picked() {
    let args: Vec<String> = ["viewer.pdf"].iter().map(|s| s.to_string()).collect();
    assert_eq!(pdf_path_from_args(&args, &[true]), None);
}

#[test]
fn a_flag_shaped_pdf_is_skipped() {
    let args: Vec<String> = ["nxtpdf.exe", "-x.pdf"].iter().map(|s| s.to_string()).collect();
    assert_eq!(pdf_path_from_args(&args, &[false, true]), None);
}

#[test]
fn the_dpi_comes_back_as_written() {
    assert_eq!(parse_page_request("//page/7/1/72.5/3"), Some((7, 1, "72.5".to_string())));
    assert_eq!(parse_page_request("/page/+7/1/x"), Some((7, 1, "x".to_string())));
}

#[test]
fn an_index_that_overflows_is_rejected() {
    assert_eq!(parse_page_request("/page/99999999999999999999/0/96/1"), None);
    assert_eq!(parse_page_request("/page/1/-1/96/1"), None);
    assert_eq!(parse_page_request("/page//0/96/1"), None);
}
