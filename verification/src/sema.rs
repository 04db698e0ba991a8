//! The errors of name resolution and the small records it hands on.

use vstd::prelude::*;
use crate::text::{push_char, push_digits, push_str, spec_digits, to_chars};

verus! {

/// Why a module cannot be resolved.
#[derive(Debug, Clone)]
pub enum SemaError {
    /// A variable read before its first assignment or declaration.
    UndefinedVariable(String),
    /// A call of a name no procedure or function of the module has.
    UndefinedFunction(String),
    DuplicateFunction(String),
    ArgumentCountMismatch { name: String, expected: usize, found: usize },
    /// A skipped position (`Ф(1, , 3)`) whose parameter has no default;
    /// `index` counts from zero.
    MissingRequiredArgument { name: String, index: usize },
    /// A function of the language itself used as a statement.
    BuiltinFunctionAsStatement(String),
    /// A procedure used where a value is needed.
    ProcedureAsFunction(String),
    /// A date literal of a day the calendar does not have.
    BadDateLiteral(String),
    /// A numeric literal the number type cannot hold.
    BadNumericLiteral(String),
    /// A construct of the language not resolved yet.
    Unsupported(&'static str),
}

/// The start of a long literal shown in a message: 24 characters, and an
/// ellipsis when there is more.
pub open spec fn preview(t: Seq<char>) -> Seq<char> {
    if t.len() > 24 {
        t.take(24) + "…"@
    } else {
        t
    }
}

/// The message of an error.
pub open spec fn sema_text(e: SemaError) -> Seq<char> {
    match e {
        SemaError::UndefinedVariable(n) => "переменная «"@ + n@ + "» читается до присваивания"@,
        SemaError::UndefinedFunction(n) => "нет процедуры или функции с именем «"@ + n@ + "»"@,
        SemaError::DuplicateFunction(n) => "процедура или функция «"@ + n@ + "» объявлена дважды"@,
        SemaError::ArgumentCountMismatch { name, expected, found } => "«"@ + name@ + "» принимает аргументов: "@
            + spec_digits(expected as nat) + ", передано: "@ + spec_digits(found as nat),
        SemaError::MissingRequiredArgument { name, index } => "у «"@ + name@
            + "» пропущен обязательный аргумент на позиции "@ + spec_digits(
            if index < usize::MAX {
                (index + 1) as nat
            } else {
                index as nat
            },
        ),
        SemaError::BuiltinFunctionAsStatement(n) => "функция встроенного языка «"@ + n@
            + "» не может стоять оператором"@,
        SemaError::ProcedureAsFunction(n) => "процедура «"@ + n@ + "» не возвращает значения"@,
        SemaError::BadDateLiteral(t) => "некорректный литерал даты «"@ + t@ + "»"@,
        SemaError::BadNumericLiteral(t) => "некорректный числовой литерал «"@ + preview(t@) + "»"@,
        SemaError::Unsupported(w) => "не поддержано: "@ + w@,
    }
}

/// Appends the first 24 characters of `t`, and an ellipsis when there is
/// more.
fn push_preview(out: &mut String, t: &str)
    ensures
        final(out)@ == old(out)@ + preview(t@),
{
    let cs = to_chars(t);
    let ghost start = out@;
    let n: usize = if cs.len() > 24 {
        24
    } else {
        cs.len()
    };
    let mut i: usize = 0;
    while i < n
        invariant
            i <= n <= cs@.len(),
            n == (if cs@.len() > 24 { 24 } else { cs@.len() }),
            out@ == start + cs@.take(i as int),
        decreases n - i,
    {
        proof {
            assert(cs@.take(i + 1) =~= cs@.take(i as int).push(cs@[i as int]));
        }
        push_char(out, cs[i]);
        i = i + 1;
    }
    if cs.len() > 24 {
        push_str(out, "…");
    } else {
        proof {
            assert(cs@.take(n as int) =~= cs@);
        }
    }
}

impl SemaError {
    /// The message the runtime shows; the error's `Display`.
    pub fn message(&self) -> (s: String)
        ensures
            s@ == sema_text(*self),
    {
        let mut s = String::new();
        match self {
            SemaError::UndefinedVariable(n) => {
                push_str(&mut s, "переменная «");
                push_str(&mut s, n.as_str());
                push_str(&mut s, "» читается до присваивания");
            },
            SemaError::UndefinedFunction(n) => {
                push_str(&mut s, "нет процедуры или функции с именем «");
                push_str(&mut s, n.as_str());
                push_str(&mut s, "»");
            },
            SemaError::DuplicateFunction(n) => {
                push_str(&mut s, "процедура или функция «");
                push_str(&mut s, n.as_str());
                push_str(&mut s, "» объявлена дважды");
            },
            SemaError::ArgumentCountMismatch { name, expected, found } => {
                push_str(&mut s, "«");
                push_str(&mut s, name.as_str());
                push_str(&mut s, "» принимает аргументов: ");
                push_digits(&mut s, *expected as u128);
                push_str(&mut s, ", передано: ");
                push_digits(&mut s, *found as u128);
            },
            SemaError::MissingRequiredArgument { name, index } => {
                push_str(&mut s, "у «");
                push_str(&mut s, name.as_str());
                push_str(&mut s, "» пропущен обязательный аргумент на позиции ");
                let shown: usize = if *index < usize::MAX {
                    *index + 1
                } else {
                    *index
                };
                push_digits(&mut s, shown as u128);
            },
            SemaError::BuiltinFunctionAsStatement(n) => {
                push_str(&mut s, "функция встроенного языка «");
                push_str(&mut s, n.as_str());
                push_str(&mut s, "» не может стоять оператором");
            },
            SemaError::ProcedureAsFunction(n) => {
                push_str(&mut s, "процедура «");
                push_str(&mut s, n.as_str());
                push_str(&mut s, "» не возвращает значения");
            },
            SemaError::BadDateLiteral(t) => {
                push_str(&mut s, "некорректный литерал даты «");
                push_str(&mut s, t.as_str());
                push_str(&mut s, "»");
            },
            SemaError::BadNumericLiteral(t) => {
                push_str(&mut s, "некорректный числовой литерал «");
                push_preview(&mut s, t.as_str());
                push_str(&mut s, "»");
            },
            SemaError::Unsupported(w) => {
                push_str(&mut s, "не поддержано: ");
                push_str(&mut s, w);
            },
        }
        proof {
            assert(s@ =~= sema_text(*self));
        }
        s
    }
}

/// A link to an exported symbol of another module: a function by the
/// chunk index of the target program, or a module variable by its slot.
#[derive(Debug, Clone, Copy, PartialEq, Eq, Structural)]
pub enum ResolvedLink {
    Function { module: u32, func: u16 },
    Variable { module: u32, slot: u16 },
}

/// The number of a label inside one body.
#[derive(Debug, Clone, Copy, PartialEq, Eq, Structural, Hash)]
pub struct LabelId(pub u32);

/// The signature of a procedure or function seen by a dynamic snippet:
/// its name, arity, kind and which parameters have a default.
#[derive(Debug)]
pub struct SnippetSignature {
    pub name: String,
    pub arity: usize,
    pub is_procedure: bool,
    pub has_default: Vec<bool>,
}

} // verus!
