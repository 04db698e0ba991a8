use bsl_spreadsheet::sema::{LabelId, ResolvedLink, SemaError};

#[test]
fn a_missing_argument_is_shown_by_its_human_position() {
    let e = SemaError::MissingRequiredArgument { name: "Ф".to_string(), index: 1 };
    assert_eq!(e.message(), "у «Ф» пропущен обязательный аргумент на позиции 2");
    let top = SemaError::MissingRequiredArgument { name: "Ф".to_string(), index: usize::MAX };
    assert_eq!(top.message(), format!("у «Ф» пропущен обязательный аргумент на позиции {}", usize::MAX));
}

#[test]
fn every_error_has_its_message() {
    assert_eq!(SemaError::UndefinedVariable("x".to_string()).message(), "переменная «x» читается до присваивания");
    assert_eq!(SemaError::UndefinedFunction("Ф".to_string()).message(), "нет процедуры или функции с именем «Ф»");
    assert_eq!(SemaError::DuplicateFunction("ф".to_string()).message(), "процедура или функция «ф» объявлена дважды");
    assert_eq!(
        SemaError::ArgumentCountMismatch { name: "Ф".to_string(), expected: 1, found: 2 }.message(),
        "«Ф» принимает аргументов: 1, передано: 2"
    );
    assert_eq!(
        SemaError::BuiltinFunctionAsStatement("Строка".to_string()).message(),
        "функция встроенного языка «Строка» не может стоять оператором"
    );
    assert_eq!(SemaError::ProcedureAsFunction("Сообщить".to_string()).message(), "процедура «Сообщить» не возвращает значения");
    assert_eq!(SemaError::BadDateLiteral("20240230".to_string()).message(), "некорректный литерал даты «20240230»");
    assert_eq!(SemaError::Unsupported("Выполнить").message(), "не поддержано: Выполнить");
}

#[test]
fn a_long_numeric_literal_is_cut_in_the_message() {
    let long = format!("0.{}", "3".repeat(100));
    assert_eq!(
        SemaError::BadNumericLiteral(long).message(),
        format!("некорректный числовой литерал «0.{}…»", "3".repeat(22))
    );
    let short = "0.".to_string() + &"3".repeat(22);
    assert_eq!(SemaError::BadNumericLiteral(short.clone()).message(), format!("некорректный числовой литерал «{short}»"));
}

#[test]
fn links_and_labels_compare_by_value() {
    assert_eq!(ResolvedLink::Function { module: 1, func: 2 }, ResolvedLink::Function { module: 1, func: 2 });
    assert_ne!(ResolvedLink::Function { module: 1, func: 2 }, ResolvedLink::Variable { module: 1, slot: 2 });
    assert_eq!(LabelId(3), LabelId(3));
}
