use bsl_spreadsheet::address::{get_area, parse_address, region};
use bsl_spreadsheet::bridge::{
    begin_row_group, clear, drawings_add, end_row_group, file_kind, is_area, is_spread_document, merge_cells,
    new_document, output, set_detail, set_value, unmerge_cells, SpreadError, Workspace,
};
use bsl_spreadsheet::model::{AreaKind, Member, NamedArea, Rect, Value};
use bsl_spreadsheet::mxl_write::FileKind;
use bsl_spreadsheet::params::{apply_params, get_param, has_param, param_names, set_param, take_params};
use bsl_spreadsheet::bridge::{read_into, read_target};
use bsl_spreadsheet::model::SpreadDocData;
use bsl_spreadsheet::mxl_write::to_mxl_bytes;
use bsl_spreadsheet::pictures::{drawing_property, set_drawing_property};
use bsl_spreadsheet::props::{get_property, set_property};

fn num(n: i64) -> Value {
    Value::Number { mantissa: n, scale: 0 }
}

fn text(s: &str) -> Value {
    Value::Str(s.to_string())
}

fn message<T>(r: Result<T, SpreadError>) -> String {
    match r {
        Err(SpreadError::Spread(m)) => m,
        Err(e) => panic!("not a spreadsheet error: {e:?}"),
        Ok(_) => panic!("expected an error"),
    }
}

fn page_check() {
    let mut ws = Workspace::new();
    let doc = new_document(&mut ws);
    assert!(matches!(get_property(&ws, &doc, "ПолеСлева"), Ok(Value::Number { mantissa: 10, scale: 0 })), "умолчание поля");
    assert!(matches!(get_property(&ws, &doc, "ОриентацияСтраницы"), Ok(Value::Enum(Member::PagePortrait))));

    set_property(&mut ws, &doc, "ПолеСлева", &num(30), "30").unwrap();
    set_property(&mut ws, &doc, "BottomMargin", &text("12,7"), "12,7").unwrap();
    set_property(&mut ws, &doc, "ОриентацияСтраницы", &Value::Enum(Member::PageLandscape), "").unwrap();
    assert!(matches!(get_property(&ws, &doc, "LeftMargin"), Ok(Value::Number { mantissa: 30, scale: 0 })));
    assert!(matches!(get_property(&ws, &doc, "ПолеСнизу"), Ok(Value::Number { mantissa: 127, scale: 1 })));
    assert!(matches!(get_property(&ws, &doc, "PageOrientation"), Ok(Value::Enum(Member::PageLandscape))));

    assert!(set_property(&mut ws, &doc, "ПолеСлева", &text("не число"), "не число").is_err());
    assert!(set_property(&mut ws, &doc, "ОриентацияСтраницы", &num(1), "1").is_err());
}

#[test]
fn document_page_properties_round_trip_through_bsl() {
    page_check();
}

#[test]
fn tests_page_properties_round_trip_through_bsl() {
    page_check();
}

#[test]
fn the_file_type_comes_from_the_enumeration() {
    let path = text("out.bin");
    for (kind, ok) in [
        (Member::FileMxl, true),
        (Member::FileTxt, true),
        (Member::FileXlsx, true),
        (Member::FilePdf, true),
        (Member::Other, false),
    ] {
        let args = vec![path.clone(), Value::Enum(kind)];
        assert_eq!(file_kind(&args).is_ok(), ok, "{kind:?}");
    }
    assert!(matches!(file_kind(&vec![path.clone()]), Ok(FileKind::Mxl)));
    assert_eq!(
        message(file_kind(&vec![path.clone(), Value::Bool(true)])),
        "Записать: ожидался ТипФайлаТабличногоДокумента"
    );
    assert_eq!(message(file_kind(&vec![path, Value::Enum(Member::Other)])), "Записать: неподдерживаемый тип файла");
}

#[test]
fn write_gives_the_bytes_of_the_chosen_format() {
    let mut ws = Workspace::new();
    let doc = new_document(&mut ws);
    let (path, bytes) = bsl_spreadsheet::bridge::write(&ws, &doc, &vec![text("a.mxl")]).unwrap();
    assert_eq!(path, "a.mxl");
    assert!(bytes.starts_with(b"MOXCEL"));
    let (_, bytes) = bsl_spreadsheet::bridge::write(&ws, &doc, &vec![text("a.xlsx"), Value::Enum(Member::FileXlsx)]).unwrap();
    assert!(bytes.starts_with(b"PK"));
    let (_, bytes) = bsl_spreadsheet::bridge::write(&ws, &doc, &vec![text("a.txt"), Value::Enum(Member::FileTxt)]).unwrap();
    assert_eq!(bytes, vec![0xEF, 0xBB, 0xBF]);
    assert_eq!(message(bsl_spreadsheet::bridge::write(&ws, &doc, &vec![num(1)])), "Записать: ожидался путь к файлу");
    assert_eq!(message(bsl_spreadsheet::bridge::write(&ws, &num(1), &vec![text("a")])), "Записать: не табличный документ");
}

#[test]
fn an_area_by_coordinates_is_put_in_order() {
    let mut ws = Workspace::new();
    let doc = new_document(&mut ws);
    let area = region(&ws, &doc, &vec![num(3), num(4), num(1), num(2)]).unwrap();
    assert!(is_area(&ws, &area));
    assert!(!is_spread_document(&ws, &area));
    assert!(is_spread_document(&ws, &doc));
    match area {
        Value::Area(0, r) => assert_eq!(r, Rect { r1: 0, c1: 1, r2: 2, c2: 3, kind: AreaKind::Rect }),
        other => panic!("{other:?}"),
    }
    let zero = region(&ws, &doc, &vec![num(0), num(-5), num(1), num(1)]).unwrap();
    assert!(matches!(zero, Value::Area(0, Rect { r1: 0, c1: 0, r2: 0, c2: 0, .. })));
    assert_eq!(message(region(&ws, &doc, &vec![num(1), text("x"), num(1), num(1)])), "Область: ожидалось число");
    assert_eq!(
        message(region(&ws, &doc, &vec![num(1), Value::Number { mantissa: 15, scale: 1 }, num(1), num(1)])),
        "Область: ожидалось целое число"
    );
    assert!(matches!(
        region(&ws, &doc, &vec![num(1), Value::Number { mantissa: 20, scale: 1 }, num(1), num(1)]),
        Ok(Value::Area(0, Rect { c1: 0, c2: 1, .. }))
    ));
    assert_eq!(message(region(&ws, &doc, &vec![num(1)])), "Область: ожидались координаты или адрес");
    assert_eq!(message(region(&ws, &doc, &vec![num(1), num(1)])), "Область: ожидалось 1 или 4 аргумента");
    assert_eq!(message(region(&ws, &num(1), &vec![])), "Область: не табличный документ");
    assert_eq!(message(region(&ws, &doc, &vec![text("Х1")])), "Область не найдена: Х1");
}

#[test]
fn addresses_of_rows_columns_and_rectangles() {
    assert_eq!(parse_address("R1C1", 5, 5), Some(Rect { r1: 0, c1: 0, r2: 0, c2: 0, kind: AreaKind::Rect }));
    assert_eq!(parse_address("R2C3:R4C1", 5, 5), Some(Rect { r1: 1, c1: 0, r2: 3, c2: 2, kind: AreaKind::Rect }));
    assert_eq!(parse_address("R2:R3", 5, 7), Some(Rect { r1: 1, c1: 0, r2: 2, c2: 6, kind: AreaKind::Rows }));
    assert_eq!(parse_address("C2", 4, 7), Some(Rect { r1: 0, c1: 1, r2: 3, c2: 1, kind: AreaKind::Columns }));
    // The letters are read in upper case, the spaces around a side are cut.
    assert_eq!(parse_address(" r1c2 ", 5, 5), Some(Rect { r1: 0, c1: 1, r2: 0, c2: 1, kind: AreaKind::Rect }));
    // The Cyrillic letter of the row is accepted too.
    assert_eq!(parse_address("С3", 0, 0), Some(Rect { r1: 2, c1: 0, r2: 2, c2: 0, kind: AreaKind::Rows }));
    assert_eq!(parse_address("", 5, 5), None);
    assert_eq!(parse_address("R", 5, 5), None);
    assert_eq!(parse_address("X1", 5, 5), None);
    assert_eq!(parse_address("R1:Q", 5, 5), None);
}

#[test]
fn a_cell_takes_a_value_a_detail_and_a_text() {
    let mut ws = Workspace::new();
    let doc = new_document(&mut ws);
    let area = region(&ws, &doc, &vec![num(2), num(3), num(2), num(3)]).unwrap();
    set_value(&mut ws, &area, "42").unwrap();
    assert!(matches!(get_property(&ws, &area, "Текст"), Ok(Value::Str(ref s)) if s == "42"));
    assert!(matches!(get_property(&ws, &area, "СодержитЗначение"), Ok(Value::Bool(true))));
    set_detail(&mut ws, &area, "ключ").unwrap();
    assert!(matches!(get_property(&ws, &area, "Details"), Ok(Value::Str(ref s)) if s == "ключ"));
    // Switching the flag off clears the text only; the value stays.
    set_property(&mut ws, &area, "ContainsValue", &Value::Bool(false), "").unwrap();
    assert!(matches!(get_property(&ws, &area, "СодержитЗначение"), Ok(Value::Bool(true))));
    let empty = region(&ws, &doc, &vec![num(1), num(1), num(1), num(1)]).unwrap();
    assert!(matches!(get_property(&ws, &empty, "СодержитЗначение"), Ok(Value::Bool(false))));
    set_property(&mut ws, &empty, "СодержитЗначение", &Value::Bool(true), "").unwrap();
    assert!(matches!(get_property(&ws, &empty, "СодержитЗначение"), Ok(Value::Bool(true))));
    assert!(matches!(get_property(&ws, &empty, "Текст"), Ok(Value::Str(ref s)) if s.is_empty()));
    assert!(matches!(get_property(&ws, &doc, "ВысотаТаблицы"), Ok(Value::Number { mantissa: 2, scale: 0 })));
    assert!(matches!(get_property(&ws, &doc, "tablewidth"), Ok(Value::Number { mantissa: 3, scale: 0 })));
    assert_eq!(message(set_value(&mut ws, &doc, "1")), "Значение: не область ячеек");
    assert_eq!(message(set_detail(&mut ws, &doc, "1")), "Расшифровка: не область ячеек");
    assert!(matches!(get_property(&ws, &area, "Нет"), Err(SpreadError::UnknownProperty(ref n)) if n == "Нет"));
    assert!(matches!(get_property(&ws, &num(1), "Текст"), Err(SpreadError::NotAnObject)));
}

#[test]
fn text_goes_into_every_cell_of_the_area() {
    let mut ws = Workspace::new();
    let doc = new_document(&mut ws);
    let area = region(&ws, &doc, &vec![num(1), num(1), num(2), num(2)]).unwrap();
    set_property(&mut ws, &area, "Текст", &text("x"), "x").unwrap();
    for (r, c) in [(1, 1), (1, 2), (2, 1), (2, 2)] {
        let cell = region(&ws, &doc, &vec![num(r), num(c), num(r), num(c)]).unwrap();
        assert!(matches!(get_property(&ws, &cell, "Text"), Ok(Value::Str(ref s)) if s == "x"));
    }
    set_property(&mut ws, &area, "ШиринаКолонки", &num(25), "25").unwrap();
    set_property(&mut ws, &area, "ВысотаСтроки", &num(20), "20").unwrap();
    assert_eq!(ws.docs[0].col_widths, vec![(0, 25), (1, 25)]);
    assert_eq!(ws.docs[0].rows[0].1.height, Some(20));
    assert_eq!(message(set_property(&mut ws, &area, "ВысотаСтроки", &text("a"), "a")), "ВысотаСтроки: ожидалось число");
    assert!(matches!(
        set_property(&mut ws, &area, "Расшифровка", &text("a"), "a"),
        Err(SpreadError::UnknownProperty(_))
    ));
    set_property(&mut ws, &doc, "ShowGrid", &Value::Bool(false), "").unwrap();
    assert!(matches!(get_property(&ws, &doc, "ОтображатьСетку"), Ok(Value::Bool(false))));
    set_property(&mut ws, &doc, "ФиксацияСверху", &num(2), "2").unwrap();
    assert!(matches!(get_property(&ws, &doc, "FixedTop"), Ok(Value::Number { mantissa: 2, scale: 0 })));
}

#[test]
fn a_name_is_given_read_and_removed() {
    let mut ws = Workspace::new();
    let doc = new_document(&mut ws);
    let area = region(&ws, &doc, &vec![num(1), num(1), num(2), num(3)]).unwrap();
    set_property(&mut ws, &area, "Имя", &text("Шапка"), "Шапка").unwrap();
    assert!(matches!(get_property(&ws, &area, "Name"), Ok(Value::Str(ref s)) if s == "Шапка"));
    assert_eq!(
        ws.docs[0].names,
        vec![("Шапка".to_string(), NamedArea { kind: AreaKind::Rect, r1: 0, c1: 0, r2: 1, c2: 2 })]
    );
    set_property(&mut ws, &area, "Имя", &text(""), "").unwrap();
    assert!(ws.docs[0].names.is_empty());
}

#[test]
fn get_area_copies_a_named_area() {
    let mut ws = Workspace::new();
    let doc = new_document(&mut ws);
    let head = region(&ws, &doc, &vec![num(1), num(1), num(1), num(2)]).unwrap();
    set_property(&mut ws, &head, "Текст", &text("Шапка"), "Шапка").unwrap();
    set_property(&mut ws, &head, "Имя", &text("Шапка"), "Шапка").unwrap();
    let body = region(&ws, &doc, &vec![num(2), num(1), num(2), num(1)]).unwrap();
    set_property(&mut ws, &body, "Текст", &text("строка"), "строка").unwrap();
    let copy = get_area(&mut ws, &doc, &vec![text("Шапка")]).unwrap();
    assert!(matches!(copy, Value::Doc(1)));
    assert_eq!(ws.docs[1].height(), 1);
    assert_eq!(ws.docs[1].width(), 2);
    assert_eq!(ws.docs[1].cell_text(0, 1), "Шапка");
    let rows = get_area(&mut ws, &doc, &vec![text("R2")]).unwrap();
    assert!(matches!(rows, Value::Doc(2)));
    assert_eq!(ws.docs[2].cell_text(0, 0), "строка");
    let by_coords = get_area(&mut ws, &doc, &vec![num(2), num(1), num(2), num(1)]).unwrap();
    assert!(matches!(by_coords, Value::Doc(3)));
    assert_eq!(message(get_area(&mut ws, &doc, &vec![text("Нет")])), "Область не найдена: Нет");
    assert_eq!(message(get_area(&mut ws, &doc, &vec![])), "ПолучитьОбласть: ожидалось 1 или 4 аргумента");
    assert_eq!(message(get_area(&mut ws, &num(1), &vec![])), "ПолучитьОбласть: не табличный документ");
    assert_eq!(ws.docs.len(), 4);
}

#[test]
fn output_appends_a_document_and_itself() {
    let mut ws = Workspace::new();
    let a = new_document(&mut ws);
    let b = new_document(&mut ws);
    let cell_a = region(&ws, &a, &vec![num(1), num(1), num(1), num(1)]).unwrap();
    set_property(&mut ws, &cell_a, "Текст", &text("A"), "A").unwrap();
    let cell_b = region(&ws, &b, &vec![num(1), num(2), num(1), num(2)]).unwrap();
    set_property(&mut ws, &cell_b, "Текст", &text("B"), "B").unwrap();
    output(&mut ws, &a, &vec![b.clone()]).unwrap();
    assert_eq!(ws.docs[0].cell_text(1, 1), "B");
    assert_eq!(ws.docs[0].height(), 2);
    assert_eq!(ws.docs[0].width(), 2);
    output(&mut ws, &a, &vec![a.clone()]).unwrap();
    assert_eq!(ws.docs[0].height(), 4);
    assert_eq!(ws.docs[0].cell_text(2, 0), "A");
    assert_eq!(ws.docs[0].cell_text(3, 1), "B");
    assert_eq!(message(output(&mut ws, &a, &vec![cell_b])), "Вывести: ожидался табличный документ");
    assert_eq!(message(output(&mut ws, &num(1), &vec![a])), "Вывести: не табличный документ");
}

#[test]
fn merging_follows_the_kind_of_the_area() {
    let mut ws = Workspace::new();
    let doc = new_document(&mut ws);
    let rect = region(&ws, &doc, &vec![num(1), num(1), num(2), num(2)]).unwrap();
    merge_cells(&mut ws, &rect).unwrap();
    assert_eq!(ws.docs[0].merges.len(), 1);
    let rows = region(&ws, &doc, &vec![text("R3:R4")]).unwrap();
    merge_cells(&mut ws, &rows).unwrap();
    assert_eq!(ws.docs[0].row_merges, vec![(2, 3)]);
    let cols = region(&ws, &doc, &vec![text("C3")]).unwrap();
    merge_cells(&mut ws, &cols).unwrap();
    assert_eq!(ws.docs[0].col_merges, vec![(2, 2)]);
    unmerge_cells(&mut ws, &rect).unwrap();
    assert!(ws.docs[0].merges.iter().all(|m| !(m.r1 == 0 && m.c1 == 0 && m.r2 == 1 && m.c2 == 1 && !m.unmerge)));
    assert_eq!(message(merge_cells(&mut ws, &doc)), "Объединить: не область ячеек");
}

#[test]
fn groups_open_and_close() {
    let mut ws = Workspace::new();
    let doc = new_document(&mut ws);
    begin_row_group(&mut ws, &doc, &vec![text("Группа"), Value::Bool(false)]).unwrap();
    assert_eq!(ws.docs[0].open_groups.len(), 1);
    assert!(ws.docs[0].open_groups[0].1);
    end_row_group(&mut ws, &doc).unwrap();
    assert!(ws.docs[0].open_groups.is_empty());
    assert_eq!(ws.docs[0].row_groups.len(), 1);
    end_row_group(&mut ws, &doc).unwrap();
    assert_eq!(ws.docs[0].row_groups.len(), 1);
    clear(&mut ws, &doc).unwrap();
    assert!(ws.docs[0].row_groups.is_empty());
    assert_eq!(message(clear(&mut ws, &num(1))), "Очистить: не табличный документ");
}

#[test]
fn a_drawing_is_added_with_its_number() {
    let mut ws = Workspace::new();
    new_document(&mut ws);
    let first = drawings_add(&mut ws, &Value::Drawings(0)).unwrap();
    let second = drawings_add(&mut ws, &Value::Drawings(0)).unwrap();
    assert!(matches!(first, Value::Drawing(0, 0)));
    assert!(matches!(second, Value::Drawing(0, 1)));
    assert_eq!(ws.docs[0].drawings[1].name, "D2");
    assert_eq!(ws.docs[0].height(), 1);
    assert_eq!(ws.docs[0].width(), 1);
    assert_eq!(message(drawings_add(&mut ws, &Value::Doc(0))), "Добавить: не коллекция рисунков");
}

#[test]
fn template_parameters_are_filled_before_output() {
    let mut ws = Workspace::new();
    let doc = new_document(&mut ws);
    let cell = region(&ws, &doc, &vec![num(1), num(1), num(1), num(1)]).unwrap();
    set_property(&mut ws, &cell, "Параметр", &text("Сумма"), "Сумма").unwrap();
    let other = region(&ws, &doc, &vec![num(2), num(1), num(2), num(1)]).unwrap();
    set_property(&mut ws, &other, "Parameter", &text("сумма"), "сумма").unwrap();
    // Names are told apart up to ASCII case only: Cyrillic case differs.
    assert_eq!(param_names(&ws.docs[0]), vec!["Сумма".to_string(), "сумма".to_string()]);
    assert!(has_param(&ws.docs[0], "СУММА"));
    assert!(!has_param(&ws.docs[0], "Итог"));

    let params = Value::Params(0);
    assert!(matches!(get_param(&ws, &params, "сумма"), Ok(Value::Undefined)));
    set_param(&mut ws, &params, "Сумма", num(5)).unwrap();
    set_param(&mut ws, &params, "СУММА", num(7)).unwrap();
    assert!(matches!(get_param(&ws, &params, "сумма"), Ok(Value::Number { mantissa: 7, scale: 0 })));
    assert_eq!(ws.docs[0].params.len(), 1);
    assert_eq!(message(get_param(&ws, &doc, "a")), "Параметры: не объект параметров макета");

    let taken = take_params(&mut ws, &doc).unwrap();
    assert_eq!(taken.len(), 1);
    assert_eq!(taken[0].0, "Сумма");
    assert!(matches!(taken[0].1, Value::Number { mantissa: 7, scale: 0 }));
    assert!(ws.docs[0].params.is_empty());

    apply_params(&mut ws, &doc, &vec![("СУММА".to_string(), "7,00".to_string())]).unwrap();
    assert_eq!(ws.docs[0].cell_text(0, 0), "7,00");
    assert_eq!(ws.docs[0].cell_text(1, 0), "7,00");
    assert!(apply_params(&mut ws, &num(1), &vec![]).is_ok());
    assert_eq!(message(apply_params(&mut ws, &num(1), &vec![("a".to_string(), "b".to_string())])), "Вывести: не табличный документ");
}

#[test]
fn a_drawing_length_snaps_to_the_grid() {
    let mut ws = Workspace::new();
    new_document(&mut ws);
    let drawing = drawings_add(&mut ws, &Value::Drawings(0)).unwrap();
    set_drawing_property(&mut ws, &drawing, "Ширина", &num(10), "10").unwrap();
    // 10 mm is 113 quarter points, and reads back as 9.96597222222222 mm.
    assert_eq!(ws.docs[0].drawings[0].width, 113);
    assert!(matches!(
        drawing_property(&ws, &drawing, "Width"),
        Ok(Value::Number { mantissa: 996_597_222_222_222, scale: 14 })
    ));
    set_drawing_property(&mut ws, &drawing, "Имя", &text("Логотип"), "Логотип").unwrap();
    assert!(matches!(drawing_property(&ws, &drawing, "Name"), Ok(Value::Str(ref s)) if s == "Логотип"));
    assert!(matches!(drawing_property(&ws, &drawing, "Лево"), Ok(Value::Number { mantissa: 0, scale: 14 })));
    // A drawing 30 mm high reaches into the fifth row of default height.
    set_drawing_property(&mut ws, &drawing, "Высота", &num(30), "30").unwrap();
    assert_eq!(ws.docs[0].drawings[0].height, 340);
    assert_eq!(ws.docs[0].height(), 8);
    assert_eq!(
        message(set_drawing_property(&mut ws, &drawing, "Верх", &text("x"), "x")),
        "геометрия рисунка: ожидалось число"
    );
    assert!(matches!(
        set_drawing_property(&mut ws, &drawing, "Цвет", &num(1), "1"),
        Err(SpreadError::UnknownProperty(_))
    ));
    assert_eq!(message(drawing_property(&ws, &Value::Drawing(0, 5), "Имя")), "рисунок уже удалён");
    assert!(set_drawing_property(&mut ws, &Value::Drawing(0, 5), "Ширина", &num(1), "1").is_ok());
}

#[test]
fn a_file_is_read_into_the_document() {
    let mut ws = Workspace::new();
    let doc = new_document(&mut ws);
    let (i, path) = read_target(&ws, &doc, &vec![text("in.mxl")]).unwrap();
    assert_eq!((i, path.as_str()), (0, "in.mxl"));
    let mut source = SpreadDocData::new();
    source.set_cell_text(1, 1, "из файла");
    read_into(&mut ws, i, &to_mxl_bytes(&source), "in.mxl").unwrap();
    assert_eq!(ws.docs[0].cell_text(1, 1), "из файла");
    assert_eq!(ws.docs[0].height(), 2);
    assert_eq!(message(read_into(&mut ws, 0, &b"MOXCEL".to_vec(), "a")), "файл MXL оборван на заголовке");
    assert_eq!(message(read_into(&mut ws, 0, &vec![0xFF, 0xFE], "a.bin")), "a.bin: не MXL и не текст в UTF-8");
    assert_eq!(message(read_into(&mut ws, 0, &b"<xml/>".to_vec(), "a.xml")), "a.xml: макет XML здесь не читается");
    assert_eq!(message(read_target(&ws, &doc, &vec![])), "Прочитать: ожидался путь к файлу");
    assert_eq!(ws.docs[0].cell_text(1, 1), "из файла");
}
