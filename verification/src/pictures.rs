//! The properties of a drawing: its name and its geometry. The language
//! speaks millimetres, the document keeps quarter points (1/288 inch), and
//! a value read back is the one snapped to that grid.

use vstd::prelude::*;
use crate::bridge::{
    lemma_replace, lemma_replace_wf, put_doc, spread_err, spread_error, take_doc, SpreadError, Workspace,
};
use crate::convert::{abs, is_named, lemma_pow10_mono, lemma_pow10_positive, named, pow10};
use crate::drawings::{corner_fits, geometry_corner};
use crate::model::{Drawing, SpreadDocData, Value};
use crate::props::{unknown, Shown, shows};

verus! {

/// `a / d` rounded half away from zero, for `d > 0`.
pub open spec fn round_div(a: int, d: int) -> int {
    let q = (2 * abs(a) + d) / (2 * d);
    if a < 0 {
        -(q as int)
    } else {
        q as int
    }
}

/// Millimetres `m / 10^s` in quarter points: `mm * 288 / 25.4`, rounded.
pub open spec fn qp_of(m: int, s: nat) -> int {
    round_div(m * 1440, (127 * pow10(s)) as int)
}

/// Quarter points back in millimetres, as the mantissa of a number with 14
/// digits after the point; the platform takes the grid value as a 32-bit
/// integer.
pub open spec fn mm_mantissa(qp: i64) -> int {
    round_div((qp as i32) * 127 * pow10(13), 144)
}

fn pow10_wide(n: u32) -> (p: u128)
    requires
        n <= 21,
    ensures
        p == pow10(n as nat),
        p <= 1_000_000_000_000_000_000_000,
{
    proof {
        reveal_with_fuel(pow10, 22);
        lemma_pow10_mono(n as nat, 21);
    }
    let mut p: u128 = 1;
    let mut i: u32 = 0;
    while i < n
        invariant
            i <= n <= 21,
            p == pow10(i as nat),
            pow10(21) == 1_000_000_000_000_000_000_000,
        decreases n - i,
    {
        proof {
            lemma_pow10_mono(i as nat + 1, 21);
        }
        p = p * 10;
        i = i + 1;
    }
    p
}

/// The quarter points of a length in millimetres given as `m / 10^s`,
/// when they fit.
pub fn quarter_points(m: i64, s: u32) -> (r: Option<i64>)
    ensures
        r is Some <==> i64::MIN <= qp_of(m as int, s as nat) <= i64::MAX,
        r is Some ==> r->0 == qp_of(m as int, s as nat),
{
    let x: i128 = m as i128 * 1440;
    let a: u128 = if x < 0 {
        (-x) as u128
    } else {
        x as u128
    };
    proof {
        assert(a == abs(m as int * 1440));
        assert(a <= 0x8000_0000_0000_0000 * 1440);
    }
    if s > 21 {
        proof {
            lemma_pow10_mono(21, s as nat);
            reveal_with_fuel(pow10, 22);
            let d: int = (127 * pow10(s as nat)) as int;
            vstd::arithmetic::div_mod::lemma_basic_div(2 * (a as int) + d, 2 * d);
        }
        return Some(0);
    }
    let d: u128 = 127 * pow10_wide(s);
    proof {
        lemma_pow10_positive(s as nat);
    }
    let q: u128 = (2 * a + d) / (2 * d);
    if x < 0 {
        if q > 0x8000_0000_0000_0000 {
            return None;
        }
        Some((-(q as i128)) as i64)
    } else {
        if q > 0x7FFF_FFFF_FFFF_FFFF {
            return None;
        }
        Some(q as i64)
    }
}

/// The mantissa of a grid length in millimetres, 14 digits after the
/// point, when it fits.
pub fn millimetres(qp: i64) -> (r: Option<i64>)
    ensures
        r is Some <==> i64::MIN <= mm_mantissa(qp) <= i64::MAX,
        r is Some ==> r->0 == mm_mantissa(qp),
{
    #[verifier::truncate]
    let q32: i32 = qp as i32;
    proof {
        reveal_with_fuel(pow10, 14);
    }
    let x: i128 = q32 as i128 * 127 * 10_000_000_000_000;
    let a: u128 = if x < 0 {
        (-x) as u128
    } else {
        x as u128
    };
    let q: u128 = (2 * a + 144) / 288;
    if x < 0 {
        if q > 0x8000_0000_0000_0000 {
            return None;
        }
        Some((-(q as i128)) as i64)
    } else {
        if q > 0x7FFF_FFFF_FFFF_FFFF {
            return None;
        }
        Some(q as i64)
    }
}

/// The properties of a drawing.
#[derive(Debug, Clone, Copy, PartialEq, Eq, Structural)]
pub enum DrawingProp {
    Name,
    Left,
    Top,
    Width,
    Height,
}

pub open spec fn drawing_prop_of(n: Seq<char>) -> Option<DrawingProp> {
    if named(n, "Имя"@, "Name"@) {
        Some(DrawingProp::Name)
    } else if named(n, "Лево"@, "Left"@) {
        Some(DrawingProp::Left)
    } else if named(n, "Верх"@, "Top"@) {
        Some(DrawingProp::Top)
    } else if named(n, "Ширина"@, "Width"@) {
        Some(DrawingProp::Width)
    } else if named(n, "Высота"@, "Height"@) {
        Some(DrawingProp::Height)
    } else {
        None
    }
}

pub fn drawing_prop(n: &str) -> (r: Option<DrawingProp>)
    ensures
        r == drawing_prop_of(n@),
{
    if is_named(n, "Имя", "Name") {
        Some(DrawingProp::Name)
    } else if is_named(n, "Лево", "Left") {
        Some(DrawingProp::Left)
    } else if is_named(n, "Верх", "Top") {
        Some(DrawingProp::Top)
    } else if is_named(n, "Ширина", "Width") {
        Some(DrawingProp::Width)
    } else if is_named(n, "Высота", "Height") {
        Some(DrawingProp::Height)
    } else {
        None
    }
}

/// The document and index of a drawing value.
pub open spec fn drawing_at(ws: &Workspace, v: &Value) -> Option<(usize, usize)> {
    match *v {
        Value::Drawing(i, k) => if i < ws.docs@.len() {
            Some((i, k))
        } else {
            None
        },
        _ => None,
    }
}

pub open spec fn geometry(d: Drawing, p: DrawingProp) -> i64 {
    match p {
        DrawingProp::Left => d.left,
        DrawingProp::Top => d.top,
        DrawingProp::Width => d.width,
        _ => d.height,
    }
}

/// Reading a property of a drawing: its name, or a length in millimetres
/// with 14 digits after the point.
pub fn drawing_property(ws: &Workspace, obj: &Value, name: &str) -> (r: Result<Value, SpreadError>)
    ensures
        drawing_at(ws, obj) is None ==> r matches Err(SpreadError::NotAnObject),
        drawing_at(ws, obj) matches Some((i, k)) ==> {
            let d = ws.docs@[i as int];
            if k >= d.drawings@.len() {
                spread_err(r, "рисунок уже удалён"@)
            } else {
                let dr = d.drawings@[k as int];
                match drawing_prop_of(name@) {
                    Some(DrawingProp::Name) => r matches Ok(v) && shows(v, Shown::Str(dr.name@)),
                    Some(p) => {
                        let m = mm_mantissa(geometry(dr, p));
                        if i64::MIN <= m <= i64::MAX {
                            r == Ok::<Value, SpreadError>(Value::Number { mantissa: m as i64, scale: 14 })
                        } else {
                            spread_err(r, "рисунок: размер вне допустимого"@)
                        }
                    },
                    None => unknown(r, name@),
                }
            }
        },
{
    let (i, k) = match obj {
        Value::Drawing(i, k) => if *i < ws.docs.len() {
            (*i, *k)
        } else {
            return Err(SpreadError::NotAnObject);
        },
        _ => {
            return Err(SpreadError::NotAnObject);
        },
    };
    if k >= ws.docs[i].drawings.len() {
        return Err(spread_error("рисунок уже удалён"));
    }
    let dr = &ws.docs[i].drawings[k];
    let qp = match drawing_prop(name) {
        Some(DrawingProp::Name) => {
            return Ok(Value::Str(dr.name.clone()));
        },
        Some(DrawingProp::Left) => dr.left,
        Some(DrawingProp::Top) => dr.top,
        Some(DrawingProp::Width) => dr.width,
        Some(DrawingProp::Height) => dr.height,
        None => {
            return Err(SpreadError::UnknownProperty(name.to_owned()));
        },
    };
    match millimetres(qp) {
        Some(m) => Ok(Value::Number { mantissa: m, scale: 14 }),
        None => Err(spread_error("рисунок: размер вне допустимого")),
    }
}

/// A drawing with one length replaced.
pub open spec fn with_geometry(d: Drawing, p: DrawingProp, q: i64) -> Drawing {
    match p {
        DrawingProp::Left => Drawing { left: q, ..d },
        DrawingProp::Top => Drawing { top: q, ..d },
        DrawingProp::Width => Drawing { width: q, ..d },
        _ => Drawing { height: q, ..d },
    }
}

/// Writing a property of a drawing: its name (the presentation of the
/// value), or a length in millimetres, which moves the drawing on the grid
/// and grows the document at once. A drawing that is gone takes nothing.
pub fn set_drawing_property(ws: &mut Workspace, obj: &Value, name: &str, val: &Value, text: &str) -> (r: Result<(), SpreadError>)
    requires
        old(ws).wf(),
    ensures
        final(ws).wf(),
        drawing_at(old(ws), obj) is None ==> (r matches Err(SpreadError::NotAnObject)) && final(ws).docs@ == old(ws).docs@,
        drawing_at(old(ws), obj) matches Some((i, k)) ==> {
            let od = old(ws).docs@[i as int];
            let nd = final(ws).docs@[i as int];
            &&& final(ws).docs@ == old(ws).docs@.update(i as int, nd)
            &&& if drawing_prop_of(name@) == Some(DrawingProp::Name) {
                &&& r is Ok
                &&& nd.rows == od.rows
                &&& nd.height == od.height
                &&& nd.width == od.width
                &&& nd.drawings@.len() == od.drawings@.len()
                &&& forall|j: int| 0 <= j < od.drawings@.len() && j != k ==> nd.drawings@[j] == od.drawings@[j]
                &&& k < od.drawings@.len() ==> nd.drawings@[k as int].name@ == text@ && nd.drawings@[k as int].left
                    == od.drawings@[k as int].left && nd.drawings@[k as int].top == od.drawings@[k as int].top
                    && nd.drawings@[k as int].width == od.drawings@[k as int].width
                    && nd.drawings@[k as int].height == od.drawings@[k as int].height
            } else if !(*val is Number) {
                spread_err(r, "геометрия рисунка: ожидалось число"@) && nd == od
            } else if k >= od.drawings@.len() {
                r is Ok && nd == od
            } else {
                match drawing_prop_of(name@) {
                    None => unknown(r, name@) && nd == od,
                    Some(p) => {
                        let q = qp_of(val->mantissa as int, val->scale as nat);
                        let dr = od.drawings@[k as int];
                        if !(i64::MIN <= q <= i64::MAX) {
                            spread_err(r, "геометрия рисунка: значение вне допустимого"@) && nd == od
                        } else {
                            let moved = with_geometry(dr, p, q as i64);
                            let corner = geometry_corner(&od, moved.left, moved.top, moved.width, moved.height);
                            if corner_fits(corner) {
                                &&& r is Ok
                                &&& nd.drawings@ == od.drawings@.update(k as int, moved)
                                &&& nd.rows == od.rows
                                &&& nd.touched(&od, corner.0 as u32, corner.1 as u32)
                            } else {
                                spread_err(r, "геометрия рисунка: рисунок вне документа"@) && nd == od
                            }
                        }
                    },
                }
            }
        },
{
    let (i, k) = match obj {
        Value::Drawing(i, k) => if *i < ws.docs.len() {
            (*i, *k)
        } else {
            return Err(SpreadError::NotAnObject);
        },
        _ => {
            return Err(SpreadError::NotAnObject);
        },
    };
    let ghost s = ws.docs@;
    let p = drawing_prop(name);
    let mut d = take_doc(ws, i);
    let ghost od = d;
    let r = set_in_doc(&mut d, k, p, name, val, text);
    put_doc(ws, i, d);
    proof {
        lemma_replace(s, i as int, d);
        lemma_replace_wf(s, i as int, d);
    }
    r
}

fn set_in_doc(d: &mut SpreadDocData, k: usize, p: Option<DrawingProp>, name: &str, val: &Value, text: &str) -> (r: Result<(), SpreadError>)
    requires
        old(d).wf(),
        p == drawing_prop_of(name@),
    ensures
        final(d).wf(),
        ({
            let od = *old(d);
            let nd = *final(d);
            if p == Some(DrawingProp::Name) {
                &&& r is Ok
                &&& nd.rows == od.rows
                &&& nd.height == od.height
                &&& nd.width == od.width
                &&& nd.drawings@.len() == od.drawings@.len()
                &&& forall|j: int| 0 <= j < od.drawings@.len() && j != k ==> nd.drawings@[j] == od.drawings@[j]
                &&& k < od.drawings@.len() ==> nd.drawings@[k as int].name@ == text@ && nd.drawings@[k as int].left
                    == od.drawings@[k as int].left && nd.drawings@[k as int].top == od.drawings@[k as int].top
                    && nd.drawings@[k as int].width == od.drawings@[k as int].width
                    && nd.drawings@[k as int].height == od.drawings@[k as int].height
            } else if !(*val is Number) {
                spread_err(r, "геометрия рисунка: ожидалось число"@) && nd == od
            } else if k >= od.drawings@.len() {
                r is Ok && nd == od
            } else {
                match p {
                    None => unknown(r, name@) && nd == od,
                    Some(p) => {
                        let q = qp_of(val->mantissa as int, val->scale as nat);
                        let dr = od.drawings@[k as int];
                        if !(i64::MIN <= q <= i64::MAX) {
                            spread_err(r, "геометрия рисунка: значение вне допустимого"@) && nd == od
                        } else {
                            let moved = with_geometry(dr, p, q as i64);
                            let corner = geometry_corner(&od, moved.left, moved.top, moved.width, moved.height);
                            if corner_fits(corner) {
                                &&& r is Ok
                                &&& nd.drawings@ == od.drawings@.update(k as int, moved)
                                &&& nd.rows == od.rows
                                &&& nd.touched(&od, corner.0 as u32, corner.1 as u32)
                            } else {
                                spread_err(r, "геометрия рисунка: рисунок вне документа"@) && nd == od
                            }
                        }
                    },
                }
            }
        }),
{
    if p == Some(DrawingProp::Name) {
        if k < d.drawings.len() {
            let ghost before = d.drawings@;
            let mut dr = d.drawings.remove(k);
            dr.name = text.to_owned();
            d.drawings.insert(k, dr);
            proof {
                assert forall|j: int| 0 <= j < before.len() && j != k implies d.drawings@[j] == before[j] by {}
                assert(d.rows_view() == old(d).rows_view());
            }
        }
        return Ok(());
    }
    let (m, s) = match val {
        Value::Number { mantissa, scale } => (*mantissa, *scale),
        _ => {
            return Err(spread_error("геометрия рисунка: ожидалось число"));
        },
    };
    if k >= d.drawings.len() {
        return Ok(());
    }
    let which = match p {
        Some(w) => w,
        None => {
            return Err(SpreadError::UnknownProperty(name.to_owned()));
        },
    };
    let q = match quarter_points(m, s) {
        Some(q) => q,
        None => {
            return Err(spread_error("геометрия рисунка: значение вне допустимого"));
        },
    };
    let (left, top, width, height) = {
        let dr = &d.drawings[k];
        match which {
            DrawingProp::Left => (q, dr.top, dr.width, dr.height),
            DrawingProp::Top => (dr.left, q, dr.width, dr.height),
            DrawingProp::Width => (dr.left, dr.top, q, dr.height),
            _ => (dr.left, dr.top, dr.width, q),
        }
    };
    let corner = d.corner_of(left, top, width, height);
    if !(0 <= corner.0 && corner.0 < 0xFFFF_FFFF && 0 <= corner.1 && corner.1 < 0xFFFF_FFFF) {
        return Err(spread_error("геометрия рисунка: рисунок вне документа"));
    }
    let ghost before = d.drawings@;
    let ghost od = *d;
    let mut dr = d.drawings.remove(k);
    dr.left = left;
    dr.top = top;
    dr.width = width;
    dr.height = height;
    d.drawings.insert(k, dr);
    proof {
        assert(d.drawings@ =~= before.update(k as int, with_geometry(before[k as int], which, q)));
        assert(d.rows_view() == od.rows_view());
        crate::drawings::lemma_corner_same(d, &od, left, top, width, height);
    }
    d.refresh_drawing_bounds(k);
    Ok(())
}

} // verus!
