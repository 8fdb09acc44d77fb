//! Percent encoding for URL paths and query strings.

use vstd::prelude::*;
use vstd::string::StrSliceExecFns;
use crate::outside::push_char;

verus! {

/// The UTF-8 bytes of one character.
pub open spec fn utf8_bytes(c: char) -> Seq<u8> {
    let u = c as u32 as int;
    if u < 0x80 {
        seq![u as u8]
    } else if u < 0x800 {
        seq![(0xC0 + u / 0x40) as u8, (0x80 + u % 0x40) as u8]
    } else if u < 0x10000 {
        seq![
            (0xE0 + u / 0x1000) as u8,
            (0x80 + (u / 0x40) % 0x40) as u8,
            (0x80 + u % 0x40) as u8,
        ]
    } else {
        seq![
            (0xF0 + u / 0x40000) as u8,
            (0x80 + (u / 0x1000) % 0x40) as u8,
            (0x80 + (u / 0x40) % 0x40) as u8,
            (0x80 + u % 0x40) as u8,
        ]
    }
}

/// An uppercase hexadecimal digit.
pub open spec fn hex_upper(d: int) -> char {
    if d < 10 {
        ((48 + d) as u8) as char
    } else {
        ((55 + d) as u8) as char
    }
}

/// One byte, percent-escaped.
pub open spec fn pct_byte(b: u8) -> Seq<char> {
    seq!['%', hex_upper(b as int / 16), hex_upper(b as int % 16)]
}

pub open spec fn pct_all_bytes(bs: Seq<u8>) -> Seq<char>
    decreases bs.len(),
{
    if bs.len() == 0 {
        Seq::empty()
    } else {
        pct_byte(bs[0]) + pct_all_bytes(bs.drop_first())
    }
}

/// A character a path keeps as it stands: a letter, a digit, `-`, `_`,
/// `.` or `~`.
pub open spec fn is_path_plain(c: char) -> bool {
    ('A' <= c && c <= 'Z') || ('a' <= c && c <= 'z') || ('0' <= c && c <= '9') || c == '-' || c
        == '_' || c == '.' || c == '~'
}

pub open spec fn pct_char(c: char) -> Seq<char> {
    if is_path_plain(c) {
        seq![c]
    } else {
        pct_all_bytes(utf8_bytes(c))
    }
}

pub open spec fn pct_prefix(s: Seq<char>, i: int) -> Seq<char>
    decreases i,
{
    if i <= 0 {
        Seq::empty()
    } else {
        pct_prefix(s, i - 1) + pct_char(s[i - 1])
    }
}

/// The percent-encoded form of a text as it stands in a URL path: every
/// character but a letter, a digit, `-`, `_`, `.` and `~` is written as
/// the percent-escapes of its UTF-8 bytes.
pub open spec fn pct_encoded(s: Seq<char>) -> Seq<char> {
    pct_prefix(s, s.len() as int)
}

/// A character a query string keeps as it stands: a letter, a digit,
/// `*`, `-`, `.` or `_`.
pub open spec fn is_form_plain(c: char) -> bool {
    ('A' <= c && c <= 'Z') || ('a' <= c && c <= 'z') || ('0' <= c && c <= '9') || c == '*' || c
        == '-' || c == '.' || c == '_'
}

pub open spec fn form_char(c: char) -> Seq<char> {
    if c == ' ' {
        seq!['+']
    } else if is_form_plain(c) {
        seq![c]
    } else {
        pct_all_bytes(utf8_bytes(c))
    }
}

pub open spec fn form_prefix(s: Seq<char>, i: int) -> Seq<char>
    decreases i,
{
    if i <= 0 {
        Seq::empty()
    } else {
        form_prefix(s, i - 1) + form_char(s[i - 1])
    }
}

/// The form-encoded shape of a text as it stands in a query string: a
/// space becomes `+`, and every character but a letter, a digit, `*`,
/// `-`, `.` and `_` is written as the percent-escapes of its UTF-8
/// bytes.
pub open spec fn form_encoded(s: Seq<char>) -> Seq<char> {
    form_prefix(s, s.len() as int)
}

fn push_hex(out: &mut String, b: u8)
    ensures
        final(out)@ == old(out)@ + pct_byte(b),
{
    push_char(out, '%');
    let hi = b / 16;
    let lo = b % 16;
    push_char(out, if hi < 10 {
        (48 + hi) as char
    } else {
        (55 + hi) as char
    });
    push_char(out, if lo < 10 {
        (48 + lo) as char
    } else {
        (55 + lo) as char
    });
    proof {
        assert(final(out)@ =~= old(out)@ + pct_byte(b));
    }
}

proof fn lemma_pct_all_unfold(bs: Seq<u8>)
    ensures
        bs.len() == 1 ==> pct_all_bytes(bs) == pct_byte(bs[0]),
        bs.len() == 2 ==> pct_all_bytes(bs) == pct_byte(bs[0]) + pct_byte(bs[1]),
        bs.len() == 3 ==> pct_all_bytes(bs) == pct_byte(bs[0]) + pct_byte(bs[1]) + pct_byte(
            bs[2],
        ),
        bs.len() == 4 ==> pct_all_bytes(bs) == pct_byte(bs[0]) + pct_byte(bs[1]) + pct_byte(
            bs[2],
        ) + pct_byte(bs[3]),
    decreases bs.len(),
{
    if bs.len() >= 1 {
        let t = bs.drop_first();
        lemma_pct_all_unfold(t);
        assert(pct_all_bytes(bs) == pct_byte(bs[0]) + pct_all_bytes(t));
        if t.len() == 0 {
            assert(pct_all_bytes(t) == Seq::<char>::empty());
        }
        if bs.len() == 1 {
            assert(pct_all_bytes(bs) =~= pct_byte(bs[0]));
        }
        if bs.len() == 2 {
            assert(pct_all_bytes(bs) =~= pct_byte(bs[0]) + pct_byte(bs[1]));
        }
        if bs.len() == 3 {
            assert(pct_all_bytes(bs) =~= pct_byte(bs[0]) + pct_byte(bs[1]) + pct_byte(bs[2]));
        }
        if bs.len() == 4 {
            assert(pct_all_bytes(bs) =~= pct_byte(bs[0]) + pct_byte(bs[1]) + pct_byte(bs[2])
                + pct_byte(bs[3]));
        }
    }
}

/// Appends the percent-escapes of a character's UTF-8 bytes.
fn push_pct_bytes(out: &mut String, c: char)
    ensures
        final(out)@ == old(out)@ + pct_all_bytes(utf8_bytes(c)),
{
    proof {
        lemma_pct_all_unfold(utf8_bytes(c));
    }
    let u = c as u32;
    if u < 0x80 {
        push_hex(out, u as u8);
        proof {
            assert(utf8_bytes(c) =~= seq![(u as int) as u8]);
            assert(final(out)@ =~= old(out)@ + pct_all_bytes(utf8_bytes(c)));
        }
    } else if u < 0x800 {
        push_hex(out, (0xC0 + u / 0x40) as u8);
        push_hex(out, (0x80 + u % 0x40) as u8);
        proof {
            assert(utf8_bytes(c) =~= seq![
                ((0xC0 + (u as int) / 0x40)) as u8,
                ((0x80 + (u as int) % 0x40)) as u8,
            ]);
            assert(final(out)@ =~= old(out)@ + pct_all_bytes(utf8_bytes(c)));
        }
    } else if u < 0x10000 {
        push_hex(out, (0xE0 + u / 0x1000) as u8);
        push_hex(out, (0x80 + (u / 0x40) % 0x40) as u8);
        push_hex(out, (0x80 + u % 0x40) as u8);
        proof {
            assert(utf8_bytes(c) =~= seq![
                ((0xE0 + (u as int) / 0x1000)) as u8,
                ((0x80 + ((u as int) / 0x40) % 0x40)) as u8,
                ((0x80 + (u as int) % 0x40)) as u8,
            ]);
            assert(final(out)@ =~= old(out)@ + pct_all_bytes(utf8_bytes(c)));
        }
    } else {
        push_hex(out, (0xF0 + u / 0x40000) as u8);
        push_hex(out, (0x80 + (u / 0x1000) % 0x40) as u8);
        push_hex(out, (0x80 + (u / 0x40) % 0x40) as u8);
        push_hex(out, (0x80 + u % 0x40) as u8);
        proof {
            assert(utf8_bytes(c) =~= seq![
                ((0xF0 + (u as int) / 0x40000)) as u8,
                ((0x80 + ((u as int) / 0x1000) % 0x40)) as u8,
                ((0x80 + ((u as int) / 0x40) % 0x40)) as u8,
                ((0x80 + (u as int) % 0x40)) as u8,
            ]);
            assert(final(out)@ =~= old(out)@ + pct_all_bytes(utf8_bytes(c)));
        }
    }
}

/// Percent-encodes a text for a URL path segment.
#[verifier::loop_isolation(false)]
pub fn percent_encode(s: &str) -> (r: String)
    ensures
        r@ == pct_encoded(s@),
{
    let len = s.unicode_len();
    let mut out = String::new();
    let mut i: usize = 0;
    while i < len
        invariant
            len == s@.len(),
            i <= len,
            out@ == pct_prefix(s@, i as int),
        decreases len - i,
    {
        let c = s.get_char(i);
        if ('A' <= c && c <= 'Z') || ('a' <= c && c <= 'z') || ('0' <= c && c <= '9') || c == '-'
            || c == '_' || c == '.' || c == '~' {
            push_char(&mut out, c);
        } else {
            push_pct_bytes(&mut out, c);
        }
        proof {
            assert(out@ =~= pct_prefix(s@, i + 1));
        }
        i += 1;
    }
    out
}

/// Form-encodes a text for one side of a query pair.
#[verifier::loop_isolation(false)]
pub fn form_encode(s: &str) -> (r: String)
    ensures
        r@ == form_encoded(s@),
{
    let len = s.unicode_len();
    let mut out = String::new();
    let mut i: usize = 0;
    while i < len
        invariant
            len == s@.len(),
            i <= len,
            out@ == form_prefix(s@, i as int),
        decreases len - i,
    {
        let c = s.get_char(i);
        if c == ' ' {
            push_char(&mut out, '+');
        } else if ('A' <= c && c <= 'Z') || ('a' <= c && c <= 'z') || ('0' <= c && c <= '9') || c
            == '*' || c == '-' || c == '.' || c == '_' {
            push_char(&mut out, c);
        } else {
            push_pct_bytes(&mut out, c);
        }
        proof {
            assert(out@ =~= form_prefix(s@, i + 1));
        }
        i += 1;
    }
    out
}

} // verus!
