use bsl_spreadsheet::model::{Color, Font, Line, LineStyle, Merge, SpreadDocData};
use bsl_spreadsheet::xlsx::{to_xlsx_bytes, worksheet};
use bsl_spreadsheet::xlsx_layout::{merge_rects, Layout};
use bsl_spreadsheet::xlsx_styles::{styles, StyleBook};
use bsl_spreadsheet::xlsx_text::{as_number, cell_ref, column_name, escape, rgb, SharedStrings};

#[test]
fn column_names() {
    assert_eq!(column_name(0), "A");
    assert_eq!(column_name(25), "Z");
    assert_eq!(column_name(26), "AA");
    assert_eq!(column_name(701), "ZZ");
    assert_eq!(column_name(702), "AAA");
}

#[test]
fn cell_ref_is_one_based_by_row() {
    assert_eq!(cell_ref(0, 0), "A1");
    assert_eq!(cell_ref(4, 2), "C5");
}

#[test]
fn values_and_parameters_reach_the_workbook() {
    let mut doc = SpreadDocData::new();
    doc.set_cell_text(0, 0, "Товар");
    doc.set_cell_value(0, 1, "1 000,5");
    doc.set_cell_parameter(1, 0, "Сумма");
    let mut strings = SharedStrings::new();
    worksheet(&doc, &mut strings, &mut StyleBook::new(), &Layout::new(&doc));
    assert_eq!(strings.strings, vec!["Товар".to_string(), "1 000,5".to_string(), "Сумма".to_string()]);
}

#[test]
fn a_number_format_makes_the_cell_numeric() {
    let mut doc = SpreadDocData::new();
    doc.set_cell_value(0, 0, "1 000,5");
    doc.set_cell_numeric(0, 0);
    let sheet = worksheet(&doc, &mut SharedStrings::new(), &mut StyleBook::new(), &Layout::new(&doc));
    assert!(sheet.contains("<v>1000.5</v>"), "должно уйти числом");
}

#[test]
fn shared_strings_are_deduplicated() {
    let mut doc = SpreadDocData::new();
    doc.set_cell_text(0, 0, "повтор");
    doc.set_cell_text(1, 0, "повтор");
    doc.set_cell_text(2, 0, "другое");
    let mut strings = SharedStrings::new();
    worksheet(&doc, &mut strings, &mut StyleBook::new(), &Layout::new(&doc));
    assert_eq!(strings.strings, vec!["повтор".to_string(), "другое".to_string()]);
}

#[test]
fn equal_styling_reuses_the_style() {
    let mut doc = SpreadDocData::new();
    doc.set_cell_text(0, 0, "жирная");
    doc.set_cell_font(0, 0, Font::new("Arial", 14).bold());
    doc.set_cell_text(1, 0, "снова жирная");
    doc.set_cell_font(1, 0, Font::new("Arial", 14).bold());
    let mut book = StyleBook::new();
    let sheet = worksheet(&doc, &mut SharedStrings::new(), &mut book, &Layout::new(&doc));
    assert_eq!(book.styles.len(), 1, "оформление должно совпасть");
    assert_eq!(sheet.matches("s=\"1\"").count(), 2);
}

#[test]
fn number_recognition() {
    assert_eq!(as_number("1 000,01").as_deref(), Some("1000.01"));
    assert_eq!(as_number("1\u{a0}000,01").as_deref(), Some("1000.01"));
    assert_eq!(as_number("42").as_deref(), Some("42"));
    assert_eq!(as_number("736,80").as_deref(), Some("736.8"), "хвостовой ноль");
    assert_eq!(as_number("498,00").as_deref(), Some("498"), "нулевая дробная часть");
    assert_eq!(as_number("-3,5").as_deref(), Some("-3.5"));
    assert_eq!(as_number("01.01.2020 9:03:25"), None, "дата — не число");
    assert_eq!(as_number("NN100000000"), None, "номер — не число");
    assert_eq!(as_number("Итого"), None);
    assert_eq!(as_number(""), None);
    assert_eq!(as_number("1,"), None, "оборванная дробная часть");
}

#[test]
fn color_is_in_direct_order() {
    assert_eq!(rgb(Color::new(255, 255, 0)), "FFFF00");
    assert_eq!(rgb(Color::new(0, 0, 255)), "0000FF");
}

#[test]
fn border_reaches_the_workbook() {
    let mut doc = SpreadDocData::new();
    doc.set_cell_text(0, 0, "в рамке");
    let line = Line::new(LineStyle::Solid);
    doc.set_cell_border(0, 0, Some(line), None, None, Some(line));
    let mut book = StyleBook::new();
    worksheet(&doc, &mut SharedStrings::new(), &mut book, &Layout::new(&doc));
    assert_eq!(book.borders, vec![(true, false, false, true)]);
    let xml = styles(&book);
    assert!(xml.contains("<left style=\"thin\"><color rgb=\"000000\"/></left>"));
    assert!(xml.contains("<right/>"));
}

#[test]
fn special_characters_are_escaped() {
    assert_eq!(escape("a<b>&c"), "a&lt;b&gt;&amp;c");
    assert_eq!(escape("а\tб"), "а    б", "табуляция — четыре пробела");
}

#[test]
fn the_archive_has_every_required_part() {
    let mut doc = SpreadDocData::new();
    doc.set_cell_text(0, 0, "ячейка");
    let bytes = to_xlsx_bytes(&doc).unwrap();
    for part in [
        "[Content_Types].xml",
        "_rels/.rels",
        "xl/workbook.xml",
        "xl/_rels/workbook.xml.rels",
        "xl/worksheets/sheet1.xml",
        "xl/styles.xml",
        "xl/sharedStrings.xml",
    ] {
        assert!(bytes.windows(part.len()).any(|w| w == part.as_bytes()), "в архиве нет части {part}");
    }
    assert!(bytes.starts_with(b"PK"));
}

#[test]
fn merges_are_carried_into_ooxml() {
    let mut doc = SpreadDocData::new();
    doc.set_cell_text(0, 0, "шапка");
    doc.merge(Merge::new(0, 0, 0, 2));
    let mut strings = SharedStrings::new();
    let sheet = worksheet(&doc, &mut strings, &mut StyleBook::new(), &Layout::new(&doc));
    assert!(sheet.contains("<mergeCell ref=\"A1:C1\"/>"));
}

#[test]
fn row_merge_is_expanded() {
    let mut doc = SpreadDocData::new();
    doc.set_cell_text(0, 0, "A");
    doc.set_cell_text(3, 4, "Z");
    doc.merge_rows(1, 2);
    assert_eq!(merge_rects(&doc, &Layout::new(&doc)), [(1, 0, 2, 4)]);
}

#[test]
fn column_merge_is_expanded() {
    let mut doc = SpreadDocData::new();
    doc.set_cell_text(0, 0, "A");
    doc.set_cell_text(3, 4, "Z");
    doc.merge_columns(1, 2);
    assert_eq!(merge_rects(&doc, &Layout::new(&doc)), [(0, 1, 3, 2)]);
}

#[test]
fn cancellation_splits_a_column_merge() {
    let mut doc = SpreadDocData::new();
    doc.set_cell_text(0, 0, "A");
    doc.set_cell_text(4, 2, "Z");
    doc.merge_columns(0, 2);
    doc.unmerge_cells(2, 0, 2, 2);
    assert_eq!(merge_rects(&doc, &Layout::new(&doc)), [(0, 0, 1, 2), (3, 0, 4, 2)]);
}

#[test]
fn overlaps_never_reach_the_workbook() {
    let mut doc = SpreadDocData::new();
    doc.set_cell_text(0, 0, "A");
    doc.set_cell_text(2, 2, "Z");
    doc.merge(Merge::new(0, 0, 1, 1));
    doc.merge(Merge::new(1, 1, 2, 2));
    assert_eq!(merge_rects(&doc, &Layout::new(&doc)), [(0, 0, 1, 1)]);
}

#[test]
fn degenerate_merge_is_skipped() {
    let mut doc = SpreadDocData::new();
    doc.set_cell_text(0, 0, "A");
    doc.merge(Merge::new(0, 0, 0, 0));
    assert!(merge_rects(&doc, &Layout::new(&doc)).is_empty());
}

#[test]
fn an_unformatted_cell_never_takes_a_bold_style() {
    let mut doc = SpreadDocData::new();
    doc.set_cell_text(0, 0, "жирная");
    doc.set_cell_font(0, 0, Font::new("Arial", 14).bold());
    doc.set_cell_text(1, 0, "простая");
    doc.set_cell_text(2, 0, "снова простая");
    let mut book = StyleBook::new();
    let sheet = worksheet(&doc, &mut SharedStrings::new(), &mut book, &Layout::new(&doc));
    assert_eq!(book.styles.len(), 2, "простой ячейке нужен свой стиль");
    assert_eq!(book.plain, Some(2));
    assert_eq!(sheet.matches("s=\"1\"").count(), 1);
    assert_eq!(sheet.matches("s=\"2\"").count(), 2);
}
