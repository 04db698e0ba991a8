use bsl_spreadsheet::model::{AreaKind, Merge, NamedArea, SpreadDocData};
use bsl_spreadsheet::mxl_read::from_mxl_bytes;
use bsl_spreadsheet::mxl_write::to_mxl_bytes;
use bsl_spreadsheet::text::quoted;
use bsl_spreadsheet::xlsx_layout::{merge_rects, Layout};
use bsl_spreadsheet::xlsx_text::escape;

#[test]
fn quoted_text_reads_back_through_a_file() {
    let text = "\"\"в кавычках\" и \"\"";
    assert_eq!(quoted(text), "\"\"\"\"\"в кавычках\"\" и \"\"\"\"\"");
    let mut doc = SpreadDocData::new();
    doc.set_cell_text(0, 0, text);
    let back = from_mxl_bytes(&to_mxl_bytes(&doc)).unwrap();
    assert_eq!(back.cell_text(0, 0), text);
}

#[test]
fn numbers_read_back_through_a_file() {
    let mut doc = SpreadDocData::new();
    doc.set_cell_text(0, 0, "x");
    doc.fix_top = -12;
    doc.fix_left = 7;
    doc.set_col_width(3, 1234);
    let back = from_mxl_bytes(&to_mxl_bytes(&doc)).unwrap();
    assert_eq!(back.col_widths, vec![(3, 1234)]);
}

#[test]
fn clearing_never_shrinks_the_document() {
    let mut doc = SpreadDocData::new();
    doc.set_cell_text(5, 1, "x");
    doc.set_cell_text(0, 0, "");
    doc.set_cell_text(5, 1, "");
    assert_eq!((doc.height(), doc.width()), (6, 2));
}

#[test]
fn merges_in_the_workbook_never_overlap() {
    let mut doc = SpreadDocData::new();
    doc.set_cell_text(5, 5, "Z");
    doc.merge(Merge::new(0, 0, 2, 2));
    doc.merge(Merge::new(2, 2, 4, 4));
    doc.merge(Merge::new(1, 3, 1, 4));
    doc.merge(Merge::new(3, 0, 3, 0));
    doc.merge_rows(4, 5);
    let rects = merge_rects(&doc, &Layout::new(&doc));
    for (i, a) in rects.iter().enumerate() {
        assert!(!(a.0 == a.2 && a.1 == a.3), "{a:?}");
        for b in &rects[i + 1..] {
            let overlap = a.0 <= b.2 && b.0 <= a.2 && a.1 <= b.3 && b.1 <= a.3;
            assert!(!overlap, "{a:?} {b:?}");
        }
    }
    assert_eq!(rects, vec![(0, 0, 2, 2), (1, 3, 1, 4), (4, 0, 5, 5)]);
}

#[test]
fn escaped_text_has_no_markup() {
    let e = escape("<a href='x'>&</a>");
    assert!(!e.contains('<') && !e.contains('>'));
    assert_eq!(e, "&lt;a href='x'&gt;&amp;&lt;/a&gt;");
}

#[test]
fn named_areas_survive_a_file() {
    let mut doc = SpreadDocData::new();
    doc.set_cell_text(3, 3, "x");
    doc.set_area_name("Шапка", NamedArea::rows(0, 1));
    doc.set_area_name("Итог", NamedArea::rect(2, 1, 3, 3));
    doc.set_area_name("Колонки", NamedArea::columns(1, 2));
    let back = from_mxl_bytes(&to_mxl_bytes(&doc)).unwrap();
    assert_eq!(back.names, doc.names);
}

#[test]
fn a_named_area_reads_back_without_its_unused_axis() {
    let mut doc = SpreadDocData::new();
    doc.set_cell_text(0, 0, "x");
    doc.set_area_name("Строки", NamedArea { kind: AreaKind::Rows, r1: 1, c1: 4, r2: 2, c2: 5 });
    let back = from_mxl_bytes(&to_mxl_bytes(&doc)).unwrap();
    assert_eq!(back.names.len(), 1);
    assert_eq!(back.names[0].0, "Строки");
    assert_eq!(back.names[0].1, NamedArea::rows(1, 2));
}

#[test]
fn page_setup_survives_a_file() {
    let mut doc = SpreadDocData::new();
    doc.set_cell_text(0, 0, "x");
    doc.landscape = true;
    doc.print_scale = Some(75);
    doc.margins.top = 3300;
    doc.margins.left = 3100;
    doc.margins.bottom = 3400;
    doc.margins.right = 3250;
    let back = from_mxl_bytes(&to_mxl_bytes(&doc)).unwrap();
    assert!(back.landscape);
    assert_eq!(back.print_scale, Some(75));
    assert_eq!(back.margins, doc.margins);
}

#[test]
fn the_print_area_reads_back_in_place() {
    let mut doc = SpreadDocData::new();
    doc.set_cell_text(0, 0, "x");
    doc.print_area = Some((0, 1, 2, 3));
    let back = from_mxl_bytes(&to_mxl_bytes(&doc)).unwrap();
    assert_eq!(back.print_area, Some((0, 1, 2, 3)));
}

#[test]
fn merges_survive_a_file_in_order() {
    let mut doc = SpreadDocData::new();
    doc.set_cell_text(6, 6, "x");
    doc.merge(Merge::new(3, 0, 3, 1));
    doc.merge(Merge::new(0, 2, 1, 3));
    doc.merge_rows(5, 6);
    doc.merge_columns(4, 5);
    let back = from_mxl_bytes(&to_mxl_bytes(&doc)).unwrap();
    assert_eq!(back.merges, vec![Merge::new(0, 2, 1, 3), Merge::new(3, 0, 3, 1)]);
    assert_eq!(back.row_merges, vec![(5, 6)]);
    assert_eq!(back.col_merges, vec![(4, 5)]);
}

#[test]
fn row_groups_survive_a_file() {
    let mut doc = SpreadDocData::new();
    doc.set_cell_text(0, 0, "шапка");
    doc.begin_row_group("Итоги", true);
    doc.set_cell_text(1, 0, "a");
    doc.begin_row_group("", false);
    doc.set_cell_text(2, 0, "b");
    doc.end_row_group();
    doc.end_row_group();
    let back = from_mxl_bytes(&to_mxl_bytes(&doc)).unwrap();
    assert_eq!(back.row_groups.len(), doc.row_groups.len());
    for (a, b) in back.row_groups.iter().zip(doc.row_groups.iter()) {
        assert_eq!((a.r1, a.r2, a.level, a.name.as_str(), a.collapsed), (b.r1, b.r2, b.level, b.name.as_str(), b.collapsed));
    }
}
