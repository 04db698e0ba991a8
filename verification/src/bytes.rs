//! From text to the bytes of a file: UTF-8 and `CR LF` line breaks.

use vstd::prelude::*;
use crate::text::to_chars;

verus! {

/// The UTF-8 encoding of one character.
pub open spec fn char_utf8(c: char) -> Seq<u8> {
    let x = c as int;
    if x < 0x80 {
        seq![x as u8]
    } else if x < 0x800 {
        seq![(0xC0 + x / 64) as u8, (0x80 + x % 64) as u8]
    } else if x < 0x10000 {
        seq![(0xE0 + x / 4096) as u8, (0x80 + (x / 64) % 64) as u8, (0x80 + x % 64) as u8]
    } else {
        seq![
            (0xF0 + x / 262144) as u8,
            (0x80 + (x / 4096) % 64) as u8,
            (0x80 + (x / 64) % 64) as u8,
            (0x80 + x % 64) as u8,
        ]
    }
}

/// The UTF-8 encoding of a text.
pub open spec fn utf8(s: Seq<char>) -> Seq<u8>
    decreases s.len(),
{
    if s.len() == 0 {
        Seq::empty()
    } else {
        utf8(s.drop_last()) + char_utf8(s.last())
    }
}

/// Every `LF` becomes `CR LF`.
pub open spec fn crlf(s: Seq<char>) -> Seq<char>
    decreases s.len(),
{
    if s.len() == 0 {
        Seq::empty()
    } else if s.last() == '\n' {
        crlf(s.drop_last()) + seq!['\r', '\n']
    } else {
        crlf(s.drop_last()).push(s.last())
    }
}

/// Appends the UTF-8 bytes of a character.
pub fn push_utf8(out: &mut Vec<u8>, c: char)
    ensures
        final(out)@ == old(out)@ + char_utf8(c),
{
    let x: u32 = c as u32;
    proof {
        assert(x as int == c as int);
        assert(x <= 0x10FFFF);
    }
    if x < 0x80 {
        out.push(x as u8);
    } else if x < 0x800 {
        out.push((0xC0 + x / 64) as u8);
        out.push((0x80 + x % 64) as u8);
    } else if x < 0x10000 {
        out.push((0xE0 + x / 4096) as u8);
        out.push((0x80 + (x / 64) % 64) as u8);
        out.push((0x80 + x % 64) as u8);
    } else {
        out.push((0xF0 + x / 262144) as u8);
        out.push((0x80 + (x / 4096) % 64) as u8);
        out.push((0x80 + (x / 64) % 64) as u8);
        out.push((0x80 + x % 64) as u8);
    }
    proof {
        assert(final(out)@ =~= old(out)@ + char_utf8(c));
    }
}

/// Appends the UTF-8 bytes of a text, optionally turning `LF` into
/// `CR LF`.
pub fn push_text_bytes(out: &mut Vec<u8>, s: &str, with_crlf: bool)
    ensures
        final(out)@ == old(out)@ + utf8(
            if with_crlf {
                crlf(s@)
            } else {
                s@
            },
        ),
{
    let cs = to_chars(s);
    let ghost start = out@;
    let ghost conv = |t: Seq<char>|
        if with_crlf {
            crlf(t)
        } else {
            t
        };
    let mut i: usize = 0;
    while i < cs.len()
        invariant
            i <= cs@.len(),
            conv == (|t: Seq<char>|
                if with_crlf {
                    crlf(t)
                } else {
                    t
                }),
            out@ == start + utf8(conv(cs@.take(i as int))),
        decreases cs@.len() - i,
    {
        let c = cs[i];
        let ghost t = cs@.take(i + 1);
        proof {
            assert(t.drop_last() =~= cs@.take(i as int));
            assert(t.last() == c);
        }
        if with_crlf && c == '\n' {
            push_utf8(out, '\r');
            push_utf8(out, '\n');
            proof {
                let u = crlf(cs@.take(i as int));
                assert(crlf(t) == u + seq!['\r', '\n']);
                lemma_utf8_append(u, seq!['\r']);
                lemma_utf8_append(u + seq!['\r'], seq!['\n']);
                assert(u + seq!['\r', '\n'] =~= (u + seq!['\r']) + seq!['\n']);
                lemma_utf8_one('\r');
                lemma_utf8_one('\n');
                assert(out@ =~= start + utf8(conv(t)));
            }
        } else {
            push_utf8(out, c);
            proof {
                let u = conv(cs@.take(i as int));
                assert(conv(t) == u.push(c));
                assert(u.push(c).drop_last() =~= u);
                assert(out@ =~= start + utf8(conv(t)));
            }
        }
        i = i + 1;
    }
    proof {
        assert(cs@.take(cs@.len() as int) =~= cs@);
    }
}

pub proof fn lemma_utf8_one(c: char)
    ensures
        utf8(seq![c]) == char_utf8(c),
{
    assert(seq![c].drop_last() =~= Seq::<char>::empty());
    assert(seq![c].last() == c);
    assert(utf8(Seq::<char>::empty()) == Seq::<u8>::empty());
    assert(utf8(seq![c]) =~= char_utf8(c));
}

/// The encoding of a text split in two is the two encodings joined.
pub proof fn lemma_utf8_append(a: Seq<char>, b: Seq<char>)
    ensures
        utf8(a + b) == utf8(a) + utf8(b),
    decreases b.len(),
{
    if b.len() == 0 {
        assert(a + b =~= a);
        assert(utf8(a) + utf8(b) =~= utf8(a));
    } else {
        lemma_utf8_append(a, b.drop_last());
        assert((a + b).drop_last() =~= a + b.drop_last());
        assert((a + b).last() == b.last());
        assert(utf8(a + b) =~= utf8(a) + utf8(b));
    }
}

/// A byte that continues a character, never starts one.
pub open spec fn is_cont(b: u8) -> bool {
    0x80 <= b < 0xC0
}

proof fn lemma_char_utf8_shape(c: char)
    ensures
        1 <= char_utf8(c).len() <= 4,
        !is_cont(char_utf8(c)[0]),
        forall|k: int| 1 <= k < char_utf8(c).len() ==> is_cont(#[trigger] char_utf8(c)[k]),
{
    let x = c as int;
    assert(0 <= x <= 0x10FFFF);
    if x < 0x80 {
    } else if x < 0x800 {
        assert(x / 64 < 32) by (nonlinear_arith)
            requires x < 0x800;
        assert(x / 64 >= 2) by (nonlinear_arith)
            requires x >= 0x80;
    } else if x < 0x10000 {
        assert(x / 4096 < 16) by (nonlinear_arith)
            requires x < 0x10000;
        assert((x / 64) % 64 < 64);
    } else {
        assert(x / 262144 < 5) by (nonlinear_arith)
            requires x <= 0x10FFFF;
        assert((x / 4096) % 64 < 64);
        assert((x / 64) % 64 < 64);
    }
}

proof fn lemma_char_utf8_injective(c: char, d: char)
    requires
        char_utf8(c) == char_utf8(d),
    ensures
        c == d,
{
    let x = c as int;
    let y = d as int;
    lemma_char_utf8_shape(c);
    lemma_char_utf8_shape(d);
    assert(char_utf8(c).len() == char_utf8(d).len());
    assert(char_utf8(c)[0] == char_utf8(d)[0]);
    if x < 0x80 {
        if y < 0x80 {
        } else if y < 0x800 {
            assert(y / 64 >= 2) by (nonlinear_arith)
                requires y >= 0x80;
        }
    } else if x < 0x800 {
        assert(x / 64 < 32 && x / 64 >= 2) by (nonlinear_arith)
            requires 0x80 <= x < 0x800;
        assert(y < 0x800);
        assert(y / 64 < 32) by (nonlinear_arith)
            requires y < 0x800;
        assert(char_utf8(c)[1] == char_utf8(d)[1]);
        assert(x / 64 == y / 64);
        assert(x % 64 == y % 64);
        assert(x == 64 * (x / 64) + x % 64) by (nonlinear_arith);
        assert(y == 64 * (y / 64) + y % 64) by (nonlinear_arith);
    } else if x < 0x10000 {
        assert(x / 4096 < 16) by (nonlinear_arith)
            requires x < 0x10000;
        assert(y / 4096 < 16) by (nonlinear_arith)
            requires y < 0x10000;
        assert(char_utf8(c)[1] == char_utf8(d)[1]);
        assert(char_utf8(c)[2] == char_utf8(d)[2]);
        assert(x / 4096 == y / 4096);
        assert((x / 64) % 64 == (y / 64) % 64);
        assert(x % 64 == y % 64);
        assert(x / 64 == 64 * (x / 4096) + (x / 64) % 64) by (nonlinear_arith)
            requires x >= 0;
        assert(y / 64 == 64 * (y / 4096) + (y / 64) % 64) by (nonlinear_arith)
            requires y >= 0;
        assert(x == 64 * (x / 64) + x % 64) by (nonlinear_arith);
        assert(y == 64 * (y / 64) + y % 64) by (nonlinear_arith);
    } else {
        assert(x / 262144 < 5) by (nonlinear_arith)
            requires x <= 0x10FFFF;
        assert(y / 262144 < 5) by (nonlinear_arith)
            requires y <= 0x10FFFF;
        assert(char_utf8(c)[1] == char_utf8(d)[1]);
        assert(char_utf8(c)[2] == char_utf8(d)[2]);
        assert(char_utf8(c)[3] == char_utf8(d)[3]);
        assert(x / 262144 == y / 262144);
        assert((x / 4096) % 64 == (y / 4096) % 64);
        assert((x / 64) % 64 == (y / 64) % 64);
        assert(x % 64 == y % 64);
        assert(x / 4096 == 64 * (x / 262144) + (x / 4096) % 64) by (nonlinear_arith)
            requires x >= 0;
        assert(y / 4096 == 64 * (y / 262144) + (y / 4096) % 64) by (nonlinear_arith)
            requires y >= 0;
        assert(x / 64 == 64 * (x / 4096) + (x / 64) % 64) by (nonlinear_arith)
            requires x >= 0;
        assert(y / 64 == 64 * (y / 4096) + (y / 64) % 64) by (nonlinear_arith)
            requires y >= 0;
        assert(x == 64 * (x / 64) + x % 64) by (nonlinear_arith);
        assert(y == 64 * (y / 64) + y % 64) by (nonlinear_arith);
    }
    assert(x == y);
}

/// Two texts with the same UTF-8 bytes are the same text.
pub proof fn lemma_utf8_injective(a: Seq<char>, b: Seq<char>)
    requires
        utf8(a) == utf8(b),
    ensures
        a == b,
    decreases a.len() + b.len(),
{
    if a.len() == 0 || b.len() == 0 {
        if a.len() > 0 {
            lemma_char_utf8_shape(a.last());
        }
        if b.len() > 0 {
            lemma_char_utf8_shape(b.last());
        }
        assert(a =~= b);
    } else {
        let ea = char_utf8(a.last());
        let eb = char_utf8(b.last());
        let pa = utf8(a.drop_last());
        let pb = utf8(b.drop_last());
        let whole = utf8(a);
        lemma_char_utf8_shape(a.last());
        lemma_char_utf8_shape(b.last());
        assert(whole == pa + ea);
        assert(whole == pb + eb);
        let n = whole.len();
        if ea.len() < eb.len() {
            let k = eb.len() - ea.len();
            assert(whole[n - ea.len()] == ea[0]);
            assert(whole[n - ea.len()] == eb[k]);
            assert(is_cont(eb[k]));
        } else if eb.len() < ea.len() {
            let k = ea.len() - eb.len();
            assert(whole[n - eb.len()] == eb[0]);
            assert(whole[n - eb.len()] == ea[k]);
            assert(is_cont(ea[k]));
        }
        assert(ea.len() == eb.len());
        assert(ea =~= eb) by {
            assert forall|k: int| 0 <= k < ea.len() implies ea[k] == eb[k] by {
                assert(whole[n - ea.len() + k] == ea[k]);
                assert(whole[n - eb.len() + k] == eb[k]);
            }
        }
        lemma_char_utf8_injective(a.last(), b.last());
        assert(pa =~= pb) by {
            assert(pa =~= whole.subrange(0, n - ea.len()));
            assert(pb =~= whole.subrange(0, n - eb.len()));
        }
        lemma_utf8_injective(a.drop_last(), b.drop_last());
        assert(a =~= a.drop_last().push(a.last()));
        assert(b =~= b.drop_last().push(b.last()));
    }
}

/// `crlf` of a text split in two is the two joined.
pub proof fn lemma_crlf_append(a: Seq<char>, b: Seq<char>)
    ensures
        crlf(a + b) == crlf(a) + crlf(b),
    decreases b.len(),
{
    if b.len() == 0 {
        assert(a + b =~= a);
        assert(crlf(a) + crlf(b) =~= crlf(a));
    } else {
        lemma_crlf_append(a, b.drop_last());
        assert((a + b).drop_last() =~= a + b.drop_last());
        assert((a + b).last() == b.last());
        assert(crlf(a + b) =~= crlf(a) + crlf(b));
    }
}

pub proof fn lemma_crlf_one(c: char)
    ensures
        crlf(seq![c]) == if c == '\n' {
            seq!['\r', '\n']
        } else {
            seq![c]
        },
{
    assert(seq![c].drop_last() =~= Seq::<char>::empty());
    assert(seq![c].last() == c);
    assert(crlf(Seq::<char>::empty()) == Seq::<char>::empty());
    assert(Seq::<char>::empty() + seq!['\r', '\n'] =~= seq!['\r', '\n']);
    assert(Seq::<char>::empty().push(c) =~= seq![c]);
}

} // verus!
