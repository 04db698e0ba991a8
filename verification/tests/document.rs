use bsl_spreadsheet::lexer::ReadError;
use bsl_spreadsheet::model::{Merge, SpreadDocData};
use bsl_spreadsheet::mxl_read::from_mxl_bytes;
use bsl_spreadsheet::mxl_write::{to_mxl_bytes, to_txt_bytes};
use bsl_spreadsheet::text::quoted;

const MXL_HEADER: &[u8] = &[b'M', b'O', b'X', b'C', b'E', b'L', 0x00, 0x08, 0x00, 0x01, 0x00, 0x0C, 0x00];
const BOM: &[u8] = &[0xEF, 0xBB, 0xBF];

fn empty_document_check() {
    let bytes = to_mxl_bytes(&SpreadDocData::new());
    assert!(bytes.starts_with(MXL_HEADER));
    assert_eq!(&bytes[13..16], BOM);
    assert_eq!(bytes.last(), Some(&b'}'));
}

#[test]
fn document_empty_document_has_a_header_and_no_trailing_newline() {
    empty_document_check();
}

#[test]
fn tests_empty_document_has_a_header_and_no_trailing_newline() {
    empty_document_check();
}

#[test]
fn document_a_quote_in_text_is_doubled() {
    assert_eq!(quoted("ка\"вычка"), "\"ка\"\"вычка\"");
}

#[test]
fn tests_a_quote_in_text_is_doubled() {
    assert_eq!(quoted("ка\"вычка"), "\"ка\"\"вычка\"");
}

fn height_check() {
    let mut doc = SpreadDocData::new();
    doc.set_cell_text(2, 4, "X");
    assert_eq!((doc.height(), doc.width()), (3, 5));
    doc.set_cell_text(2, 4, "");
    assert_eq!((doc.height(), doc.width()), (3, 5));
}

#[test]
fn document_height_never_shrinks_after_clearing_a_cell() {
    height_check();
}

#[test]
fn tests_height_never_shrinks_after_clearing_a_cell() {
    height_check();
}

fn margins_check() {
    let mut doc = SpreadDocData::new();
    doc.set_cell_text(0, 0, "A");
    doc.margins.top = 3300;
    doc.margins.left = 3100;
    doc.margins.bottom = 3400;
    doc.margins.right = 3250;
    let bytes = to_mxl_bytes(&doc);
    let text = String::from_utf8_lossy(&bytes).to_string();
    assert!(text.contains("{\"N\",3300}"), "{text}");
    assert!(text.contains("{\"N\",3250}"), "{text}");
    let back = from_mxl_bytes(&bytes).unwrap();
    assert_eq!(back.margins, doc.margins);
    let plain = to_mxl_bytes(&SpreadDocData::new());
    assert_eq!(String::from_utf8_lossy(&plain).matches("{\"N\",1000}").count(), 6);
}

#[test]
fn document_margins_survive_the_mxl_round_trip() {
    margins_check();
}

#[test]
fn tests_margins_survive_the_mxl_round_trip() {
    margins_check();
}

fn output_check() {
    let mut a = SpreadDocData::new();
    a.set_cell_text(0, 0, "A");
    let mut b = SpreadDocData::new();
    b.set_cell_text(0, 0, "B");
    a.append(&b);
    assert_eq!(a.cell_text(0, 0), "A");
    assert_eq!(a.cell_text(1, 0), "B");
    assert_eq!(a.height(), 2);
}

#[test]
fn document_output_shifts_rows_down() {
    output_check();
}

#[test]
fn tests_output_shifts_rows_down() {
    output_check();
}

#[test]
fn a_document_comes_back_from_its_own_mxl() {
    let mut doc = SpreadDocData::new();
    doc.set_cell_text(0, 0, "Шапка \"отчёта\"");
    doc.set_cell_text(2, 1, "Итого");
    doc.set_cell_parameter(1, 0, "Сумма");
    doc.merge(Merge::new(0, 0, 0, 2));
    doc.set_col_width(1, 25);
    doc.set_row_height(2, 20);
    let bytes = to_mxl_bytes(&doc);
    let back = from_mxl_bytes(&bytes).unwrap();
    assert_eq!(back.cell_text(0, 0), "Шапка \"отчёта\"");
    assert_eq!(back.cell_text(2, 1), "Итого");
    assert_eq!(back.cell_parameter(1, 0), "Сумма");
    assert_eq!(back.height(), 3);
    assert_eq!(back.width(), 3);
    assert_eq!(to_mxl_bytes(&back), bytes);
}

#[test]
fn a_file_without_the_signature_is_refused() {
    assert!(matches!(from_mxl_bytes(&b"PLAIN TEXT".to_vec()), Err(ReadError::NoSignature)));
    assert!(matches!(from_mxl_bytes(&b"MOXCEL\0\x08".to_vec()), Err(ReadError::TruncatedHeader)));
    let mut bad = MXL_HEADER.to_vec();
    bad.extend_from_slice(&[0xFF, 0xFE, 0x00]);
    assert!(matches!(from_mxl_bytes(&bad), Err(ReadError::NotUtf8)));
}

#[test]
fn a_text_export_has_a_bom_and_tabs_between_cells() {
    let mut doc = SpreadDocData::new();
    doc.set_cell_text(0, 0, "a");
    doc.set_cell_text(0, 1, "b");
    doc.set_cell_text(1, 0, "c");
    let bytes = to_txt_bytes(&doc);
    assert!(bytes.starts_with(BOM));
    let text = String::from_utf8(bytes[3..].to_vec()).unwrap();
    assert_eq!(text, "a\tb\r\nc");
}
