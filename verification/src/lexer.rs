//! The bracket notation of MXL: groups in braces, strings in quotes and
//! bare atoms (numbers, GUIDs, words), separated by commas.

use vstd::prelude::*;
use crate::text::{from_chars, push_char};

verus! {

/// Why a file could not be read.
#[derive(Debug, Clone, Copy, PartialEq, Eq, Structural)]
pub enum ReadError {
    /// The file does not start with `MOXCEL`.
    NoSignature,
    /// The file ends inside its header.
    TruncatedHeader,
    /// The body is not UTF-8.
    NotUtf8,
    /// The text does not start with a group.
    NoRootGroup,
    /// A string is not closed.
    UnclosedString,
    /// A group is not closed.
    UnclosedGroup,
    /// A group was expected.
    ExpectedGroup,
    /// A number was expected.
    ExpectedNumber,
    /// The file ended before its last section.
    UnexpectedEnd,
    /// A cell record without a mask.
    EmptyCell,
    /// A row or column index the document cannot hold.
    IndexOutOfRange,
}

/// The message the runtime shows for an error.
pub open spec fn read_error_text(e: ReadError) -> Seq<char> {
    match e {
        ReadError::NoSignature => "не файл MXL: нет подписи MOXCEL"@,
        ReadError::TruncatedHeader => "файл MXL оборван на заголовке"@,
        ReadError::NotUtf8 => "тело MXL не в UTF-8"@,
        ReadError::NoRootGroup => "файл не начинается с группы"@,
        ReadError::UnclosedString => "незакрытая строка"@,
        ReadError::UnclosedGroup => "незакрытая группа"@,
        ReadError::ExpectedGroup => "ожидалась группа"@,
        ReadError::ExpectedNumber => "ожидалось число"@,
        ReadError::UnexpectedEnd => "файл кончился раньше времени"@,
        ReadError::EmptyCell => "пустая ячейка"@,
        ReadError::IndexOutOfRange => "номер строки или колонки вне допустимого"@,
    }
}

impl ReadError {
    /// The message the runtime shows.
    pub fn message(&self) -> (s: String)
        ensures
            s@ == read_error_text(*self),
    {
        let m = match self {
            ReadError::NoSignature => "не файл MXL: нет подписи MOXCEL",
            ReadError::TruncatedHeader => "файл MXL оборван на заголовке",
            ReadError::NotUtf8 => "тело MXL не в UTF-8",
            ReadError::NoRootGroup => "файл не начинается с группы",
            ReadError::UnclosedString => "незакрытая строка",
            ReadError::UnclosedGroup => "незакрытая группа",
            ReadError::ExpectedGroup => "ожидалась группа",
            ReadError::ExpectedNumber => "ожидалось число",
            ReadError::UnexpectedEnd => "файл кончился раньше времени",
            ReadError::EmptyCell => "пустая ячейка",
            ReadError::IndexOutOfRange => "номер строки или колонки вне допустимого",
        };
        m.to_owned()
    }
}

/// A node of the bracket notation.
#[derive(Debug)]
pub enum Node {
    Group(Vec<Node>),
    Text(String),
    Atom(String),
}

/// What a node holds, as plain values.
pub enum NodeView {
    Group(Seq<NodeView>),
    Text(Seq<char>),
    Atom(Seq<char>),
}

/// The tree a node holds.
pub open spec fn tree(n: Node) -> NodeView
    decreases n,
{
    match n {
        Node::Group(v) => {
            proof {
                assert(decreases_to!(n => v));
                assert(decreases_to!(v => v@));
            }
            NodeView::Group(trees(v@))
        },
        Node::Text(t) => NodeView::Text(t@),
        Node::Atom(t) => NodeView::Atom(t@),
    }
}

/// The trees of a list of nodes.
pub open spec fn trees(s: Seq<Node>) -> Seq<NodeView>
    decreases s,
{
    if s.len() == 0 {
        Seq::empty()
    } else {
        proof {
            assert(decreases_to!(s => s[s.len() - 1]));
            assert(decreases_to!(s => s.subrange(0, s.len() - 1)));
        }
        trees(s.subrange(0, s.len() - 1)).push(tree(s[s.len() - 1]))
    }
}

// --- numbers ---------------------------------------------------------------------

pub open spec fn is_digit(c: char) -> bool {
    '0' <= c && c <= '9'
}

pub open spec fn all_digits(s: Seq<char>) -> bool {
    forall|i: int| 0 <= i < s.len() ==> is_digit(#[trigger] s[i])
}

/// The value of a string of decimal digits.
pub open spec fn digits_value(s: Seq<char>) -> int
    decreases s.len(),
{
    if s.len() == 0 {
        0
    } else {
        digits_value(s.drop_last()) * 10 + (s.last() as int - 48)
    }
}

/// A decimal integer as Rust reads one: an optional sign, then at least
/// one digit and nothing else.
pub open spec fn int_of(s: Seq<char>) -> Option<int> {
    if s.len() > 0 && (s[0] == '+' || s[0] == '-') {
        let d = s.drop_first();
        if d.len() > 0 && all_digits(d) {
            Some(
                if s[0] == '-' {
                    -digits_value(d)
                } else {
                    digits_value(d)
                },
            )
        } else {
            None
        }
    } else if s.len() > 0 && all_digits(s) {
        Some(digits_value(s))
    } else {
        None
    }
}

/// The same, when the value fits in `i64`.
pub open spec fn i64_of(s: Seq<char>) -> Option<i64> {
    match int_of(s) {
        Some(v) => if i64::MIN <= v <= i64::MAX {
            Some(v as i64)
        } else {
            None
        },
        None => None,
    }
}

pub proof fn lemma_digits_grow(s: Seq<char>, k: int)
    requires
        all_digits(s),
        0 <= k <= s.len(),
    ensures
        digits_value(s) >= digits_value(s.take(k)) >= 0,
    decreases s.len(),
{
    if s.len() == 0 {
        assert(s.take(k) =~= s);
    } else if k == s.len() {
        assert(s.take(k) =~= s);
        lemma_digits_grow(s.drop_last(), s.len() - 1);
        assert(s.drop_last().take(s.len() - 1) =~= s.drop_last());
    } else {
        lemma_digits_grow(s.drop_last(), k);
        assert(s.drop_last().take(k) =~= s.take(k));
    }
}

/// Reads `digits_value(s.skip(from))` when it fits in `i64` (as a magnitude
/// up to 2^63).
fn digits_of(s: &Vec<char>, from: usize) -> (r: Option<i128>)
    requires
        from <= s@.len(),
    ensures
        match r {
            Some(v) => all_digits(s@.skip(from as int)) && v == digits_value(s@.skip(from as int)) && 0 <= v
                <= 0x8000_0000_0000_0000,
            None => !all_digits(s@.skip(from as int)) || digits_value(s@.skip(from as int))
                > 0x8000_0000_0000_0000,
        },
{
    let ghost d = s@.skip(from as int);
    let mut acc: i128 = 0;
    let mut i: usize = from;
    while i < s.len()
        invariant
            from <= i <= s@.len(),
            d == s@.skip(from as int),
            all_digits(d.take(i - from)),
            acc == digits_value(d.take(i - from)),
            0 <= acc <= 0x8000_0000_0000_0000,
        decreases s@.len() - i,
    {
        let c = s[i];
        if !('0' <= c && c <= '9') {
            proof {
                assert(d[i - from] == c);
            }
            return None;
        }
        proof {
            assert(d.take(i - from + 1).drop_last() =~= d.take(i - from));
            assert(d.take(i - from + 1).last() == c);
        }
        acc = acc * 10 + (c as u32 - 48) as i128;
        i = i + 1;
        if acc > 0x8000_0000_0000_0000 {
            proof {
                if all_digits(d) {
                    lemma_digits_grow(d, i - from);
                }
            }
            return None;
        }
    }
    proof {
        assert(d.take(i - from) =~= d);
    }
    Some(acc)
}

/// `str::parse::<i64>`.
pub fn parse_i64(s: &Vec<char>) -> (r: Option<i64>)
    ensures
        r == i64_of(s@),
{
    if s.len() == 0 {
        return None;
    }
    let first = s[0];
    if first == '+' || first == '-' {
        proof {
            assert(s@.skip(1) =~= s@.drop_first());
        }
        if s.len() == 1 {
            return None;
        }
        match digits_of(s, 1) {
            Some(v) => {
                proof {
                    assert(s@.drop_first().len() > 0);
                }
                if first == '-' {
                    Some((-v) as i64)
                } else if v <= 0x7FFF_FFFF_FFFF_FFFF {
                    Some(v as i64)
                } else {
                    None
                }
            },
            None => None,
        }
    } else {
        proof {
            assert(s@.skip(0) =~= s@);
            assert(s@[0] == first);
        }
        match digits_of(s, 0) {
            Some(v) => {
                if v <= 0x7FFF_FFFF_FFFF_FFFF {
                    Some(v as i64)
                } else {
                    None
                }
            },
            None => None,
        }
    }
}

impl Node {
    pub fn group(&self) -> (r: Result<&Vec<Node>, ReadError>)
        ensures
            match self {
                Node::Group(g) => r == Ok::<&Vec<Node>, ReadError>(g),
                _ => r == Err::<&Vec<Node>, ReadError>(ReadError::ExpectedGroup),
            },
    {
        match self {
            Node::Group(g) => Ok(g),
            _ => Err(ReadError::ExpectedGroup),
        }
    }

    /// The text of a string or an atom; a group has none.
    pub fn text(&self) -> (s: String)
        ensures
            match self {
                Node::Text(t) => s@ == t@,
                Node::Atom(t) => s@ == t@,
                Node::Group(_) => s@ == Seq::<char>::empty(),
            },
    {
        match self {
            Node::Text(t) => t.clone(),
            Node::Atom(t) => t.clone(),
            Node::Group(_) => String::new(),
        }
    }

    /// An atom read as a number.
    pub fn number(&self) -> (r: Result<i64, ReadError>)
        ensures
            match self {
                Node::Atom(t) => match i64_of(t@) {
                    Some(v) => r == Ok::<i64, ReadError>(v),
                    None => r == Err::<i64, ReadError>(ReadError::ExpectedNumber),
                },
                _ => r == Err::<i64, ReadError>(ReadError::ExpectedNumber),
            },
    {
        match self {
            Node::Atom(t) => {
                let cs = crate::text::to_chars(t.as_str());
                match parse_i64(&cs) {
                    Some(v) => Ok(v),
                    None => Err(ReadError::ExpectedNumber),
                }
            },
            _ => Err(ReadError::ExpectedNumber),
        }
    }
}

// --- tokens ------------------------------------------------------------------

/// Unicode white space (`char::is_whitespace`).
pub open spec fn is_ws(c: char) -> bool {
    ||| c == '\t' || c == '\n' || c == '\u{b}' || c == '\u{c}' || c == '\r' || c == ' '
    ||| c == '\u{85}' || c == '\u{a0}' || c == '\u{1680}'
    ||| ('\u{2000}' <= c && c <= '\u{200a}')
    ||| c == '\u{2028}' || c == '\u{2029}' || c == '\u{202f}' || c == '\u{205f}' || c == '\u{3000}'
}

pub fn is_whitespace(c: char) -> (b: bool)
    ensures
        b == is_ws(c),
{
    c == '\t' || c == '\n' || c == '\u{b}' || c == '\u{c}' || c == '\r' || c == ' ' || c == '\u{85}' || c
        == '\u{a0}' || c == '\u{1680}' || ('\u{2000}' <= c && c <= '\u{200a}') || c == '\u{2028}' || c
        == '\u{2029}' || c == '\u{202f}' || c == '\u{205f}' || c == '\u{3000}'
}

pub open spec fn lstrip(s: Seq<char>) -> Seq<char>
    decreases s.len(),
{
    if s.len() > 0 && s[0] == ' ' {
        lstrip(s.drop_first())
    } else {
        s
    }
}

pub open spec fn rstrip(s: Seq<char>) -> Seq<char>
    decreases s.len(),
{
    if s.len() > 0 && s.last() == ' ' {
        rstrip(s.drop_last())
    } else {
        s
    }
}

/// The items after an atom ends: the atom without the spaces around it,
/// unless nothing else is left of it.
pub open spec fn flushed(items: Seq<NodeView>, atom: Seq<char>) -> Seq<NodeView> {
    let t = rstrip(lstrip(atom));
    if t.len() > 0 {
        items.push(NodeView::Atom(t))
    } else {
        items
    }
}

/// An atom with the spaces around it cut off; an atom of nothing but
/// spaces is no atom.
fn flush(atom: &mut Vec<char>, items: &mut Vec<Node>)
    ensures
        final(atom)@.len() == 0,
        trees(final(items)@) == flushed(trees(old(items)@), old(atom)@),
{
    let n = atom.len();
    let mut a: usize = 0;
    proof {
        assert(atom@.skip(0) =~= atom@);
    }
    while a < n && atom[a] == ' '
        invariant
            a <= n,
            n == atom@.len(),
            lstrip(atom@) == lstrip(atom@.skip(a as int)),
        decreases n - a,
    {
        proof {
            assert(atom@.skip(a as int).drop_first() =~= atom@.skip(a + 1));
        }
        a = a + 1;
    }
    proof {
        assert(atom@.skip(a as int) =~= atom@.subrange(a as int, n as int));
    }
    let mut b: usize = n;
    while b > a && atom[b - 1] == ' '
        invariant
            a <= b <= n,
            n == atom@.len(),
            lstrip(atom@) == atom@.subrange(a as int, n as int),
            rstrip(lstrip(atom@)) == rstrip(atom@.subrange(a as int, b as int)),
        decreases b,
    {
        proof {
            assert(atom@.subrange(a as int, b as int).drop_last() =~= atom@.subrange(a as int, b - 1));
        }
        b = b - 1;
    }
    proof {
        if b > a {
            assert(atom@.subrange(a as int, b as int).last() == atom@[b - 1]);
        } else {
            assert(atom@.subrange(a as int, b as int) =~= Seq::<char>::empty());
        }
        assert(rstrip(lstrip(atom@)) == atom@.subrange(a as int, b as int));
    }
    if a < b {
        let mut t: Vec<char> = Vec::new();
        let mut i = a;
        while i < b
            invariant
                a <= i <= b <= n,
                n == atom@.len(),
                t@ == atom@.subrange(a as int, i as int),
            decreases b - i,
        {
            proof {
                assert(atom@.subrange(a as int, i + 1) =~= atom@.subrange(a as int, i as int).push(atom@[i as int]));
            }
            t.push(atom[i]);
            i = i + 1;
        }
        let ghost before = items@;
        let text = from_chars(&t);
        let ghost node = Node::Atom(text);
        items.push(Node::Atom(text));
        proof {
            assert(items@.subrange(0, items@.len() - 1) =~= before);
            assert(items@[items@.len() - 1] == node);
            assert(tree(node) == NodeView::Atom(t@));
            assert(trees(items@) == trees(before).push(tree(node)));
        }
    }
    atom.clear();
}

/// The text of a quoted string read from position `i`, just after its
/// opening quote: a doubled quote stands for one quote, a single quote
/// closes the string. The text and the position after the closing quote.
pub open spec fn unquoted_from(s: Seq<char>, i: int) -> Option<(Seq<char>, int)>
    decreases s.len() - i,
{
    if i < 0 || i >= s.len() {
        None
    } else if s[i] == '"' {
        if i + 1 < s.len() && s[i + 1] == '"' {
            match unquoted_from(s, i + 2) {
                Some((t, e)) => Some((seq!['"'] + t, e)),
                None => None,
            }
        } else {
            Some((Seq::empty(), i + 1))
        }
    } else {
        match unquoted_from(s, i + 1) {
            Some((t, e)) => Some((seq![s[i]] + t, e)),
            None => None,
        }
    }
}

proof fn lemma_unquoted_end(s: Seq<char>, i: int)
    ensures
        unquoted_from(s, i) matches Some((_, e)) ==> i < e <= s.len(),
    decreases s.len() - i,
{
    if 0 <= i < s.len() {
        if s[i] == '"' {
            if i + 1 < s.len() && s[i + 1] == '"' {
                lemma_unquoted_end(s, i + 2);
            }
        } else {
            lemma_unquoted_end(s, i + 1);
        }
    }
}

/// A quoted string starting after its opening quote; a doubled quote is a
/// quote. Returns the text and the position after the closing quote.
fn read_string(s: &Vec<char>, start: usize) -> (r: Result<(String, usize), ReadError>)
    requires
        start <= s@.len(),
    ensures
        match r {
            Ok((t, end)) => unquoted_from(s@, start as int) == Some((t@, end as int)) && start < end <= s@.len(),
            Err(e) => e == ReadError::UnclosedString && unquoted_from(s@, start as int) is None,
        },
{
    let mut text = String::new();
    let mut i = start;
    while i < s.len()
        invariant
            start <= i <= s@.len(),
            unquoted_from(s@, start as int) == match unquoted_from(s@, i as int) {
                Some((t, e)) => Some((text@ + t, e)),
                None => None,
            },
        decreases s@.len() - i,
    {
        let c = s[i];
        if c == '"' {
            if i + 1 < s.len() && s[i + 1] == '"' {
                let ghost before = text@;
                push_char(&mut text, '"');
                proof {
                    match unquoted_from(s@, i + 2) {
                        Some((t, e)) => {
                            assert(before + (seq!['"'] + t) =~= text@ + t);
                        },
                        None => {},
                    }
                }
                i = i + 2;
            } else {
                proof {
                    assert(text@ + Seq::<char>::empty() =~= text@);
                    lemma_unquoted_end(s@, start as int);
                }
                return Ok((text, i + 1));
            }
        } else {
            let ghost before = text@;
            push_char(&mut text, c);
            proof {
                match unquoted_from(s@, i + 1) {
                    Some((t, e)) => {
                        assert(before + (seq![c] + t) =~= text@ + t);
                    },
                    None => {},
                }
            }
            i = i + 1;
        }
    }
    Err(ReadError::UnclosedString)
}

/// The items of a group read from position `i`, given the items and the
/// atom read so far: the items with the position after the closing brace.
pub open spec fn group_from(s: Seq<char>, i: int, items: Seq<NodeView>, atom: Seq<char>) -> Result<
    (Seq<NodeView>, int),
    ReadError,
>
    decreases s.len() - i,
{
    if i < 0 || i >= s.len() {
        Err(ReadError::UnclosedGroup)
    } else {
        let c = s[i];
        if c == '{' {
            match group_from(s, i + 1, Seq::empty(), Seq::empty()) {
                Ok((g, end)) => {
                    if i < end <= s.len() {
                        group_from(s, end, flushed(items, atom).push(NodeView::Group(g)), Seq::empty())
                    } else {
                        Err(ReadError::UnclosedGroup)
                    }
                },
                Err(e) => Err(e),
            }
        } else if c == '}' {
            Ok((flushed(items, atom), i + 1))
        } else if c == ',' {
            group_from(s, i + 1, flushed(items, atom), Seq::empty())
        } else if c == '"' {
            match unquoted_from(s, i + 1) {
                Some((t, e)) => {
                    if i < e <= s.len() {
                        group_from(s, e, flushed(items, atom).push(NodeView::Text(t)), Seq::empty())
                    } else {
                        Err(ReadError::UnclosedString)
                    }
                },
                None => Err(ReadError::UnclosedString),
            }
        } else if is_ws(c) {
            group_from(s, i + 1, items, atom.push(' '))
        } else {
            group_from(s, i + 1, items, atom.push(c))
        }
    }
}

proof fn lemma_trees_push(s: Seq<Node>, n: Node)
    ensures
        trees(s.push(n)) == trees(s).push(tree(n)),
{
    assert(s.push(n).subrange(0, s.len() as int) =~= s);
}

/// The items of a group whose opening brace is just before `start`, and
/// the position after its closing brace.
fn read_group(s: &Vec<char>, start: usize) -> (r: Result<(Node, usize), ReadError>)
    requires
        start <= s@.len(),
    ensures
        match group_from(s@, start as int, Seq::empty(), Seq::empty()) {
            Ok((g, end)) => r matches Ok((n, e)) && tree(n) == NodeView::Group(g) && e == end
                && start < end <= s@.len(),
            Err(e) => r == Err::<(Node, usize), ReadError>(e),
        },
    decreases s@.len() - start,
{
    let mut items: Vec<Node> = Vec::new();
    let mut atom: Vec<char> = Vec::new();
    let mut i = start;
    while i < s.len()
        invariant
            start <= i <= s@.len(),
            group_from(s@, start as int, Seq::empty(), Seq::empty()) == group_from(
                s@,
                i as int,
                trees(items@),
                atom@,
            ),
        decreases s@.len() - i,
    {
        let c = s[i];
        if c == '{' {
            flush(&mut atom, &mut items);
            match read_group(s, i + 1) {
                Ok((n, end)) => {
                    let ghost before = items@;
                    let ghost nn = n;
                    items.push(n);
                    proof {
                        lemma_trees_push(before, nn);
                        assert(atom@ =~= Seq::<char>::empty());
                    }
                    i = end;
                },
                Err(e) => {
                    return Err(e);
                },
            }
        } else if c == '}' {
            flush(&mut atom, &mut items);
            proof {
                assert(tree(Node::Group(items)) == NodeView::Group(trees(items@)));
            }
            return Ok((Node::Group(items), i + 1));
        } else if c == ',' {
            flush(&mut atom, &mut items);
            proof {
                assert(atom@ =~= Seq::<char>::empty());
            }
            i = i + 1;
        } else if c == '"' {
            flush(&mut atom, &mut items);
            match read_string(s, i + 1) {
                Ok((t, end)) => {
                    let ghost before = items@;
                    items.push(Node::Text(t));
                    proof {
                        lemma_trees_push(before, Node::Text(t));
                        assert(atom@ =~= Seq::<char>::empty());
                    }
                    i = end;
                },
                Err(e) => {
                    return Err(e);
                },
            }
        } else if is_whitespace(c) {
            atom.push(' ');
            i = i + 1;
        } else {
            atom.push(c);
            i = i + 1;
        }
    }
    Err(ReadError::UnclosedGroup)
}

/// The tree of a text that starts with a group.
pub fn parse_nodes(s: &Vec<char>) -> (r: Result<Node, ReadError>)
    ensures
        (s@.len() == 0 || s@[0] != '{') ==> r == Err::<Node, ReadError>(ReadError::NoRootGroup),
        s@.len() > 0 && s@[0] == '{' ==> match group_from(s@, 1, Seq::empty(), Seq::empty()) {
            Ok((g, _)) => r matches Ok(n) && tree(n) == NodeView::Group(g),
            Err(e) => r == Err::<Node, ReadError>(e),
        },
        r is Ok ==> r->Ok_0 is Group,
{
    if s.len() == 0 || s[0] != '{' {
        return Err(ReadError::NoRootGroup);
    }
    match read_group(s, 1) {
        Ok((n, _)) => Ok(n),
        Err(e) => Err(e),
    }
}

} // verus!
