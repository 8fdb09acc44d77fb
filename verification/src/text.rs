//! Character and string groundwork: equality, case folding, trimming,
//! and the identifier-to-flag-token normalizer.

use vstd::prelude::*;
use vstd::string::StrSliceExecFns;
use crate::outside::push_char;

verus! {

broadcast use vstd::utf8::char_u32_cast;

pub open spec fn is_ascii_upper(c: char) -> bool {
    'A' <= c && c <= 'Z'
}

/// An uppercase ASCII letter folds to its lowercase form; every other
/// character stays as it is.
pub open spec fn lower_char(c: char) -> char {
    if is_ascii_upper(c) {
        ((c as u8) + 32) as char
    } else {
        c
    }
}

pub open spec fn lower_seq(s: Seq<char>) -> Seq<char> {
    Seq::new(s.len(), |i: int| lower_char(s[i]))
}

/// Whether two texts spell the same characters.
pub fn str_eq(a: &str, b: &str) -> (r: bool)
    ensures
        r <==> a@ == b@,
{
    let alen = a.unicode_len();
    let blen = b.unicode_len();
    if alen != blen {
        return false;
    }
    let mut i: usize = 0;
    while i < alen
        invariant
            alen == a@.len(),
            alen == b@.len(),
            i <= alen,
            forall|j: int| 0 <= j < i ==> a@[j] == b@[j],
        decreases alen - i,
    {
        if a.get_char(i) != b.get_char(i) {
            return false;
        }
        i += 1;
    }
    proof {
        assert(a@ =~= b@);
    }
    true
}

/// ASCII-lowercases a text.
pub fn to_ascii_lower(s: &str) -> (r: String)
    ensures
        r@ == lower_seq(s@),
{
    let len = s.unicode_len();
    let mut out = String::new();
    let mut i: usize = 0;
    while i < len
        invariant
            len == s@.len(),
            i <= len,
            out@ == lower_seq(s@).subrange(0, i as int),
        decreases len - i,
    {
        let c = s.get_char(i);
        if 'A' <= c && c <= 'Z' {
            push_char(&mut out, ((c as u8) + 32) as char);
        } else {
            push_char(&mut out, c);
        }
        i += 1;
        proof {
            assert(out@ =~= lower_seq(s@).subrange(0, i as int));
        }
    }
    proof {
        assert(lower_seq(s@).subrange(0, len as int) =~= lower_seq(s@));
    }
    out
}

// ----- the identifier-to-flag-token normalizer -----

pub open spec fn is_sep(c: char) -> bool {
    c == '_' || c == ' '
}

pub open spec fn is_lower_or_digit(c: char) -> bool {
    ('a' <= c && c <= 'z') || ('0' <= c && c <= '9')
}

/// One step of the normalizer: the accumulator is the text built so far
/// and whether the last kept character was a lowercase letter or digit.
pub open spec fn kebab_step(acc: (Seq<char>, bool), c: char) -> (Seq<char>, bool) {
    if is_sep(c) {
        (
            if acc.0.len() > 0 && acc.0.last() == '-' {
                acc.0
            } else {
                acc.0.push('-')
            },
            false,
        )
    } else if is_ascii_upper(c) {
        (
            if acc.1 {
                acc.0.push('-').push(lower_char(c))
            } else {
                acc.0.push(lower_char(c))
            },
            false,
        )
    } else {
        (acc.0.push(c), is_lower_or_digit(c))
    }
}

pub open spec fn kebab_fold(s: Seq<char>, i: int, acc: (Seq<char>, bool)) -> (Seq<char>, bool)
    decreases s.len() - i,
{
    if i < 0 || i >= s.len() {
        acc
    } else {
        kebab_fold(s, i + 1, kebab_step(acc, s[i]))
    }
}

pub open spec fn drop_leading(s: Seq<char>, c: char) -> Seq<char>
    decreases s.len(),
{
    if s.len() > 0 && s[0] == c {
        drop_leading(s.drop_first(), c)
    } else {
        s
    }
}

pub open spec fn drop_trailing(s: Seq<char>, c: char) -> Seq<char>
    decreases s.len(),
{
    if s.len() > 0 && s.last() == c {
        drop_trailing(s.drop_last(), c)
    } else {
        s
    }
}

/// What the normalizer yields: lowercase with hyphens at word breaks,
/// separators collapsed, and the ends trimmed of hyphens.
pub open spec fn kebab(s: Seq<char>) -> Seq<char> {
    drop_trailing(drop_leading(kebab_fold(s, 0, (Seq::empty(), false)).0, '-'), '-')
}

/// Normalizes an identifier into a flag token: lowercases, inserts a
/// hyphen at every lowercase-to-uppercase transition, turns `_` and space
/// into hyphens collapsing runs, and trims hyphens from both ends.
pub fn to_kebab(value: &str) -> (r: String)
    ensures
        r@ == kebab(value@),
{
    let len = value.unicode_len();
    let mut out = String::new();
    let mut prev_lower = false;
    let mut i: usize = 0;
    while i < len
        invariant
            len == value@.len(),
            i <= len,
            kebab_fold(value@, 0, (Seq::empty(), false)) == kebab_fold(
                value@,
                i as int,
                (out@, prev_lower),
            ),
        decreases len - i,
    {
        let ghost pre: (Seq<char>, bool) = (out@, prev_lower);
        let c = value.get_char(i);
        if c == '_' || c == ' ' {
            let olen = out.unicode_len();
            let ends_hyphen = olen > 0 && out.as_str().get_char(olen - 1) == '-';
            if !ends_hyphen {
                push_char(&mut out, '-');
            }
            prev_lower = false;
        } else if 'A' <= c && c <= 'Z' {
            if prev_lower {
                push_char(&mut out, '-');
            }
            push_char(&mut out, ((c as u8) + 32) as char);
            prev_lower = false;
        } else {
            push_char(&mut out, c);
            prev_lower = ('a' <= c && c <= 'z') || ('0' <= c && c <= '9');
        }
        proof {
            assert((out@, prev_lower) == kebab_step(pre, value@[i as int]));
        }
        i += 1;
    }
    trim_hyphens(&out)
}

/// Trims `-` from both ends of a text.
fn trim_hyphens(s: &String) -> (r: String)
    ensures
        r@ == drop_trailing(drop_leading(s@, '-'), '-'),
{
    let len = s.unicode_len();
    let mut start: usize = 0;
    while start < len && s.as_str().get_char(start) == '-'
        invariant
            len == s@.len(),
            start <= len,
            forall|j: int| 0 <= j < start ==> s@[j] == '-',
        decreases len - start,
    {
        start += 1;
    }
    let mut end = len;
    while end > start && s.as_str().get_char(end - 1) == '-'
        invariant
            len == s@.len(),
            start <= end <= len,
            forall|j: int| end <= j < len ==> s@[j] == '-',
        decreases end,
    {
        end -= 1;
    }
    let piece = s.as_str().substring_char(start, end);
    let r = String::from_str(piece);
    proof {
        lemma_drop_leading_is_subrange(s@, '-', start as int);
        lemma_drop_trailing_is_subrange(
            s@.subrange(start as int, len as int),
            '-',
            end - start,
        );
        assert(s@.subrange(start as int, len as int).subrange(0, end - start) =~= s@.subrange(
            start as int,
            end as int,
        ));
    }
    r
}

/// One more element under a map extends the mapped prefix by the
/// element's image.
pub proof fn lemma_map_prefix_push<T, U>(s: Seq<T>, f: spec_fn(T) -> U, i: int)
    requires
        0 <= i < s.len(),
    ensures
        s.subrange(0, i + 1).map_values(f) == s.subrange(0, i).map_values(f).push(f(s[i])),
{
    assert(s.subrange(0, i + 1).map_values(f) =~= s.subrange(0, i).map_values(f).push(f(s[i])));
}

/// The texts a vector of strings holds.
pub open spec fn texts_of(v: Vec<String>) -> Seq<Seq<char>> {
    Seq::new(v@.len(), |i: int| v@[i]@)
}

// ----- ordering -----

/// Lexicographic order on texts by code point, the order in which the
/// compiled tree is sorted.
pub open spec fn lex_le(a: Seq<char>, b: Seq<char>) -> bool
    decreases a.len(),
{
    if a.len() == 0 {
        true
    } else if b.len() == 0 {
        false
    } else if (a[0] as u32) < (b[0] as u32) {
        true
    } else if (a[0] as u32) > (b[0] as u32) {
        false
    } else {
        lex_le(a.drop_first(), b.drop_first())
    }
}

pub open spec fn lex_lt(a: Seq<char>, b: Seq<char>) -> bool {
    lex_le(a, b) && a != b
}

pub proof fn lemma_lex_le_refl(a: Seq<char>)
    ensures
        lex_le(a, a),
    decreases a.len(),
{
    if a.len() > 0 {
        lemma_lex_le_refl(a.drop_first());
    }
}

proof fn lemma_lex_le_skip(a: Seq<char>, b: Seq<char>, i: int)
    requires
        0 <= i <= a.len(),
        i <= b.len(),
        forall|j: int| 0 <= j < i ==> a[j] == b[j],
    ensures
        lex_le(a, b) == lex_le(
            a.subrange(i, a.len() as int),
            b.subrange(i, b.len() as int),
        ),
    decreases i,
{
    if i == 0 {
        assert(a.subrange(0, a.len() as int) =~= a);
        assert(b.subrange(0, b.len() as int) =~= b);
    } else {
        assert(a.len() > 0 && b.len() > 0);
        assert(a[0] == b[0]);
        lemma_lex_le_skip(a.drop_first(), b.drop_first(), i - 1);
        assert(a.drop_first().subrange(i - 1, a.drop_first().len() as int) =~= a.subrange(
            i,
            a.len() as int,
        ));
        assert(b.drop_first().subrange(i - 1, b.drop_first().len() as int) =~= b.subrange(
            i,
            b.len() as int,
        ));
    }
}

/// Whether `a` comes no later than `b` in the tree's sort order.
pub fn str_le(a: &str, b: &str) -> (r: bool)
    ensures
        r == lex_le(a@, b@),
{
    let alen = a.unicode_len();
    let blen = b.unicode_len();
    let mut i: usize = 0;
    loop
        invariant
            alen == a@.len(),
            blen == b@.len(),
            i <= alen,
            i <= blen,
            forall|j: int| 0 <= j < i ==> a@[j] == b@[j],
        decreases alen - i,
    {
        proof {
            lemma_lex_le_skip(a@, b@, i as int);
        }
        if i >= alen {
            proof {
                assert(a@.subrange(i as int, alen as int).len() == 0);
            }
            return true;
        }
        if i >= blen {
            proof {
                assert(b@.subrange(i as int, blen as int).len() == 0);
                assert(a@.subrange(i as int, alen as int).len() > 0);
            }
            return false;
        }
        let ca = a.get_char(i);
        let cb = b.get_char(i);
        if (ca as u32) < (cb as u32) {
            proof {
                assert(a@.subrange(i as int, alen as int)[0] == ca);
                assert(b@.subrange(i as int, blen as int)[0] == cb);
            }
            return true;
        }
        if (ca as u32) > (cb as u32) {
            proof {
                assert(a@.subrange(i as int, alen as int)[0] == ca);
                assert(b@.subrange(i as int, blen as int)[0] == cb);
            }
            return false;
        }
        proof {
            assert(ca == cb) by {
                assert(ca as u32 == cb as u32);
                assert(((ca as u32) as char) == ((cb as u32) as char));
            }
        }
        i += 1;
    }
}

// ----- prefixes and suffixes -----

pub open spec fn has_prefix(s: Seq<char>, p: Seq<char>) -> bool {
    p.len() <= s.len() && s.subrange(0, p.len() as int) == p
}

pub open spec fn has_suffix(s: Seq<char>, p: Seq<char>) -> bool {
    p.len() <= s.len() && s.subrange(s.len() - p.len(), s.len() as int) == p
}

pub fn starts_with(s: &str, p: &str) -> (r: bool)
    ensures
        r == has_prefix(s@, p@),
{
    let slen = s.unicode_len();
    let plen = p.unicode_len();
    if plen > slen {
        return false;
    }
    let mut i: usize = 0;
    while i < plen
        invariant
            slen == s@.len(),
            plen == p@.len(),
            plen <= slen,
            i <= plen,
            forall|j: int| 0 <= j < i ==> s@[j] == p@[j],
        decreases plen - i,
    {
        if s.get_char(i) != p.get_char(i) {
            proof {
                assert(s@.subrange(0, plen as int)[i as int] == s@[i as int]);
            }
            return false;
        }
        i += 1;
    }
    proof {
        assert(s@.subrange(0, plen as int) =~= p@);
    }
    true
}

pub fn ends_with(s: &str, p: &str) -> (r: bool)
    ensures
        r == has_suffix(s@, p@),
{
    let slen = s.unicode_len();
    let plen = p.unicode_len();
    if plen > slen {
        return false;
    }
    let off = slen - plen;
    let mut i: usize = 0;
    while i < plen
        invariant
            slen == s@.len(),
            plen == p@.len(),
            off == slen - plen,
            i <= plen,
            forall|j: int| 0 <= j < i ==> s@[off + j] == p@[j],
        decreases plen - i,
    {
        if s.get_char(off + i) != p.get_char(i) {
            proof {
                assert(s@.subrange(off as int, slen as int)[i as int] == s@[off + i]);
            }
            return false;
        }
        i += 1;
    }
    proof {
        assert(s@.subrange(off as int, slen as int) =~= p@);
    }
    true
}

// ----- whitespace -----

/// The Unicode whitespace characters, as `str::trim` knows them.
pub open spec fn is_space(c: char) -> bool {
    c == '\u{9}' || c == '\u{A}' || c == '\u{B}' || c == '\u{C}' || c == '\u{D}' || c == ' '
        || c == '\u{85}' || c == '\u{A0}' || c == '\u{1680}' || ('\u{2000}' <= c && c
        <= '\u{200A}') || c == '\u{2028}' || c == '\u{2029}' || c == '\u{202F}' || c == '\u{205F}'
        || c == '\u{3000}'
}

fn is_space_char(c: char) -> (r: bool)
    ensures
        r == is_space(c),
{
    c == '\u{9}' || c == '\u{A}' || c == '\u{B}' || c == '\u{C}' || c == '\u{D}' || c == ' '
        || c == '\u{85}' || c == '\u{A0}' || c == '\u{1680}' || ('\u{2000}' <= c && c
        <= '\u{200A}') || c == '\u{2028}' || c == '\u{2029}' || c == '\u{202F}' || c == '\u{205F}'
        || c == '\u{3000}'
}

pub open spec fn drop_leading_space(s: Seq<char>) -> Seq<char>
    decreases s.len(),
{
    if s.len() > 0 && is_space(s[0]) {
        drop_leading_space(s.drop_first())
    } else {
        s
    }
}

pub open spec fn drop_trailing_space(s: Seq<char>) -> Seq<char>
    decreases s.len(),
{
    if s.len() > 0 && is_space(s.last()) {
        drop_trailing_space(s.drop_last())
    } else {
        s
    }
}

/// What trimming whitespace from both ends yields.
pub open spec fn trimmed(s: Seq<char>) -> Seq<char> {
    drop_trailing_space(drop_leading_space(s))
}

proof fn lemma_drop_leading_space_is_subrange(s: Seq<char>, k: int)
    requires
        0 <= k <= s.len(),
        forall|j: int| 0 <= j < k ==> is_space(#[trigger] s[j]),
        k == s.len() || !is_space(s[k]),
    ensures
        drop_leading_space(s) == s.subrange(k, s.len() as int),
    decreases k,
{
    if k == 0 {
        assert(s.subrange(0, s.len() as int) =~= s);
    } else {
        assert(is_space(s[0]));
        lemma_drop_leading_space_is_subrange(s.drop_first(), k - 1);
        assert(s.drop_first().subrange(k - 1, s.drop_first().len() as int) =~= s.subrange(
            k,
            s.len() as int,
        ));
    }
}

proof fn lemma_drop_trailing_space_is_subrange(s: Seq<char>, k: int)
    requires
        0 <= k <= s.len(),
        forall|j: int| k <= j < s.len() ==> is_space(#[trigger] s[j]),
        k == 0 || !is_space(s[k - 1]),
    ensures
        drop_trailing_space(s) == s.subrange(0, k),
    decreases s.len(),
{
    if s.len() > 0 && is_space(s.last()) {
        assert(k < s.len());
        lemma_drop_trailing_space_is_subrange(s.drop_last(), k);
        assert(s.drop_last().subrange(0, k) =~= s.subrange(0, k));
    } else {
        assert(k == s.len());
        assert(s.subrange(0, s.len() as int) =~= s);
    }
}

/// The index of the first non-whitespace character, or the length.
fn first_non_space(s: &str) -> (r: usize)
    ensures
        r <= s@.len(),
        forall|j: int| 0 <= j < r ==> is_space(#[trigger] s@[j]),
        r < s@.len() ==> !is_space(s@[r as int]),
        drop_leading_space(s@) == s@.subrange(r as int, s@.len() as int),
{
    let len = s.unicode_len();
    let mut i: usize = 0;
    while i < len && is_space_char(s.get_char(i))
        invariant
            len == s@.len(),
            i <= len,
            forall|j: int| 0 <= j < i ==> is_space(#[trigger] s@[j]),
        decreases len - i,
    {
        i += 1;
    }
    proof {
        lemma_drop_leading_space_is_subrange(s@, i as int);
    }
    i
}

/// Trims whitespace from both ends of a text.
pub fn trim(s: &str) -> (r: String)
    ensures
        r@ == trimmed(s@),
{
    let len = s.unicode_len();
    let start = first_non_space(s);
    let mut end = len;
    while end > start && is_space_char(s.get_char(end - 1))
        invariant
            len == s@.len(),
            start <= end <= len,
            forall|j: int| end <= j < len ==> is_space(#[trigger] s@[j]),
        decreases end,
    {
        end -= 1;
    }
    let piece = s.substring_char(start, end);
    let r = String::from_str(piece);
    proof {
        lemma_drop_trailing_space_is_subrange(
            s@.subrange(start as int, len as int),
            end - start,
        );
        assert(s@.subrange(start as int, len as int).subrange(0, end - start) =~= s@.subrange(
            start as int,
            end as int,
        ));
    }
    r
}

/// Whether the text, after leading whitespace, begins with `[`.
pub open spec fn begins_bracketed(s: Seq<char>) -> bool {
    drop_leading_space(s).len() > 0 && drop_leading_space(s)[0] == '['
}

pub fn starts_bracketed(s: &str) -> (r: bool)
    ensures
        r == begins_bracketed(s@),
{
    let len = s.unicode_len();
    let start = first_non_space(s);
    if start < len {
        s.get_char(start) == '['
    } else {
        false
    }
}

// ----- integers -----

pub open spec fn is_digit(c: char) -> bool {
    '0' <= c && c <= '9'
}

pub open spec fn digit_val(c: char) -> int {
    c as u32 - '0' as u32
}

pub open spec fn all_digits(s: Seq<char>) -> bool {
    forall|j: int| 0 <= j < s.len() ==> is_digit(#[trigger] s[j])
}

/// The value a digit string spells in base ten.
pub open spec fn digits_val(s: Seq<char>) -> int
    decreases s.len(),
{
    if s.len() == 0 {
        0
    } else {
        digits_val(s.drop_last()) * 10 + digit_val(s.last())
    }
}

/// How a signed decimal integer token decomposes: an optional sign, then
/// at least one digit, nothing else.
pub open spec fn int_token_parts(s: Seq<char>) -> Option<(bool, Seq<char>)> {
    if s.len() == 0 {
        Option::None
    } else if s[0] == '+' || s[0] == '-' {
        if s.len() > 1 {
            Option::Some((s[0] == '-', s.drop_first()))
        } else {
            Option::None
        }
    } else {
        Option::Some((false, s))
    }
}

/// The integer a token spells, if it spells one.
pub open spec fn int_of_text(s: Seq<char>) -> Option<int> {
    match int_token_parts(s) {
        Option::None => Option::None,
        Option::Some((neg, ds)) => if all_digits(ds) {
            Option::Some(
                if neg {
                    -digits_val(ds)
                } else {
                    digits_val(ds)
                },
            )
        } else {
            Option::None
        },
    }
}

proof fn lemma_digits_val_nonneg(s: Seq<char>)
    requires
        all_digits(s),
    ensures
        digits_val(s) >= 0,
    decreases s.len(),
{
    if s.len() > 0 {
        assert(all_digits(s.drop_last()));
        lemma_digits_val_nonneg(s.drop_last());
        assert(is_digit(s.last()));
    }
}

/// Parses a signed base-ten integer token, as the integer kind coerces
/// one: `None` where the token spells no integer or the integer does not
/// fit a signed 64-bit value.
#[verifier::loop_isolation(false)]
pub fn parse_i64(s: &str) -> (r: Option<i64>)
    ensures
        match r {
            Option::Some(v) => int_of_text(s@) == Option::Some(v as int),
            Option::None => match int_of_text(s@) {
                Option::Some(v) => v < i64::MIN as int || v > i64::MAX as int,
                Option::None => true,
            },
        },
{
    let len = s.unicode_len();
    if len == 0 {
        return None;
    }
    let c0 = s.get_char(0);
    let neg = c0 == '-';
    let start: usize = if c0 == '-' || c0 == '+' {
        1
    } else {
        0
    };
    if start >= len {
        return None;
    }
    let ghost ds: Seq<char> = s@.subrange(start as int, len as int);
    proof {
        if start == 1 {
            assert(ds =~= s@.drop_first());
        } else {
            assert(ds =~= s@);
        }
    }
    let mut i = start;
    let mut acc: u64 = 0;
    let mut big = false;
    while i < len
        invariant
            len == s@.len(),
            start <= i <= len,
            start < len,
            ds == s@.subrange(start as int, len as int),
            all_digits(s@.subrange(start as int, i as int)),
            !big ==> acc as int == digits_val(s@.subrange(start as int, i as int)),
            big ==> digits_val(s@.subrange(start as int, i as int)) > u64::MAX as int,
        decreases len - i,
    {
        let c = s.get_char(i);
        if !('0' <= c && c <= '9') {
            proof {
                assert(ds[i - start] == c);
                assert(!all_digits(ds));
                if start == 1 {
                    assert(s@.drop_first() =~= ds);
                } else {
                    assert(s@ =~= ds);
                }
            }
            return None;
        }
        let d: u64 = ((c as u8) - 48) as u64;
        proof {
            assert(d as int == digit_val(c));
            assert(s@.subrange(start as int, i + 1).drop_last() =~= s@.subrange(
                start as int,
                i as int,
            ));
            assert(s@.subrange(start as int, i + 1).last() == s@[i as int]);
            assert(digits_val(s@.subrange(start as int, i + 1)) == digits_val(
                s@.subrange(start as int, i as int),
            ) * 10 + digit_val(c));
        }
        if !big {
            if acc > (u64::MAX - d) / 10 {
                big = true;
            } else {
                acc = acc * 10 + d;
            }
        }
        proof {
            let prev = digits_val(s@.subrange(start as int, i as int));
            if big {
                if prev > u64::MAX as int {
                    assert(prev * 10 + d as int > u64::MAX as int) by (nonlinear_arith)
                        requires
                            prev > u64::MAX as int,
                            d >= 0,
                    ;
                } else {
                    assert(prev * 10 + d as int > u64::MAX as int) by (nonlinear_arith)
                        requires
                            prev >= 0,
                            prev > ((u64::MAX - d) as int) / 10,
                            d <= u64::MAX,
                    ;
                }
            }
        }
        i += 1;
    }
    proof {
        assert(s@.subrange(start as int, len as int) == ds);
        assert(all_digits(ds));
        lemma_digits_val_nonneg(ds);
    }
    if big {
        return None;
    }
    if neg {
        if acc > 9223372036854775808u64 {
            return None;
        }
        if acc == 9223372036854775808u64 {
            return Some(i64::MIN);
        }
        return Some(-(acc as i64));
    }
    if acc > 9223372036854775807u64 {
        return None;
    }
    Some(acc as i64)
}

/// The base-ten digit string of a nonnegative integer.
pub open spec fn dec_digits(n: int) -> Seq<char>
    decreases n,
{
    if n < 10 {
        seq![((48 + if n >= 0 { n } else { 0 }) as u8) as char]
    } else {
        dec_digits(n / 10).push(((48 + n % 10) as u8) as char)
    }
}

/// The base-ten text of an integer, a `-` ahead of a negative one.
pub open spec fn int_dec_text(n: int) -> Seq<char> {
    if n < 0 {
        seq!['-'] + dec_digits(-n)
    } else {
        dec_digits(n)
    }
}

fn u64_dec(x: u64) -> (r: String)
    ensures
        r@ == dec_digits(x as int),
    decreases x,
{
    if x < 10 {
        let mut s = String::new();
        push_char(&mut s, ((48 + x as u8)) as char);
        proof {
            assert(s@ =~= dec_digits(x as int));
        }
        s
    } else {
        let mut s = u64_dec(x / 10);
        push_char(&mut s, (48 + (x % 10) as u8) as char);
        s
    }
}

/// Writes an integer in base ten.
pub fn i64_to_dec(n: i64) -> (r: String)
    ensures
        r@ == int_dec_text(n as int),
{
    if n >= 0 {
        u64_dec(n as u64)
    } else {
        let m: u64 = (-(n as i128)) as u64;
        proof {
            assert(m as int == -(n as int));
        }
        let mut s = String::new();
        push_char(&mut s, '-');
        let d = u64_dec(m);
        s.append(d.as_str());
        proof {
            assert(s@ =~= int_dec_text(n as int));
        }
        s
    }
}

// ----- the number grammar -----

/// The end of the digit run that starts at `i`.
pub open spec fn digits_end(s: Seq<char>, i: int) -> int
    decreases s.len() - i,
{
    if 0 <= i < s.len() && is_digit(s[i]) {
        digits_end(s, i + 1)
    } else {
        i
    }
}

/// Whether a token spells a number: an optional minus sign, an integer
/// part without a superfluous leading zero, an optional fraction, an
/// optional exponent, and nothing else.
pub open spec fn number_text(s: Seq<char>) -> bool {
    let t = if s.len() > 0 && s[0] == '-' {
        s.drop_first()
    } else {
        s
    };
    t.len() > 0 && is_digit(t[0]) && {
        let i = if t[0] == '0' {
            1int
        } else {
            digits_end(t, 0)
        };
        let j = if i < t.len() && t[i] == '.' {
            if digits_end(t, i + 1) > i + 1 {
                digits_end(t, i + 1)
            } else {
                -1
            }
        } else {
            i
        };
        j >= 0 && {
            let k = if j < t.len() && (t[j] == 'e' || t[j] == 'E') {
                let e0 = if j + 1 < t.len() && (t[j + 1] == '+' || t[j + 1] == '-') {
                    j + 2
                } else {
                    j + 1
                };
                if digits_end(t, e0) > e0 {
                    digits_end(t, e0)
                } else {
                    -1
                }
            } else {
                j
            };
            k == t.len()
        }
    }
}

proof fn lemma_digits_end_bounds(s: Seq<char>, i: int)
    requires
        0 <= i <= s.len(),
    ensures
        i <= digits_end(s, i) <= s.len(),
    decreases s.len() - i,
{
    if i < s.len() && is_digit(s[i]) {
        lemma_digits_end_bounds(s, i + 1);
    }
}

/// The end of a digit run, computed.
fn scan_digits(s: &str, from: usize) -> (r: usize)
    requires
        from <= s@.len(),
    ensures
        r as int == digits_end(s@, from as int),
        from <= r <= s@.len(),
{
    let len = s.unicode_len();
    let mut i = from;
    loop
        invariant
            len == s@.len(),
            from <= i <= len,
            digits_end(s@, from as int) == digits_end(s@, i as int),
        decreases len - i,
    {
        if i >= len {
            return i;
        }
        let c = s.get_char(i);
        if !('0' <= c && c <= '9') {
            return i;
        }
        i += 1;
    }
}

/// Whether a token spells a number.
pub fn is_number_text(s: &str) -> (r: bool)
    ensures
        r == number_text(s@),
{
    let len = s.unicode_len();
    let neg = len > 0 && s.get_char(0) == '-';
    let off: usize = if neg {
        1
    } else {
        0
    };
    let ghost t: Seq<char> = if neg {
        s@.drop_first()
    } else {
        s@
    };
    proof {
        assert(t.len() == len - off);
        assert(forall|j: int| 0 <= j < t.len() ==> #[trigger] t[j] == s@[j + off]);
        lemma_digits_end_shift(s@, off as int);
    }
    if off >= len {
        return false;
    }
    let c0 = s.get_char(off);
    if !('0' <= c0 && c0 <= '9') {
        return false;
    }
    let i: usize = if c0 == '0' {
        off + 1
    } else {
        scan_digits(s, off)
    };
    let mut j = i;
    if i < len && s.get_char(i) == '.' {
        let fe = scan_digits(s, i + 1);
        if fe > i + 1 {
            j = fe;
        } else {
            return false;
        }
    }
    let mut k = j;
    if j < len && (s.get_char(j) == 'e' || s.get_char(j) == 'E') {
        let e0: usize = if j + 1 < len && (s.get_char(j + 1) == '+' || s.get_char(j + 1) == '-') {
            j + 2
        } else {
            j + 1
        };
        if e0 > len {
            return false;
        }
        let ee = scan_digits(s, e0);
        if ee > e0 {
            k = ee;
        } else {
            return false;
        }
    }
    k == len
}

/// A digit run in the whole text is a digit run in the tail past a
/// dropped prefix, shifted.
proof fn lemma_digits_end_shift(s: Seq<char>, off: int)
    requires
        0 <= off <= s.len(),
    ensures
        forall|i: int|
            off <= i <= s.len() ==> #[trigger] digits_end(s, i) == digits_end(
                s.subrange(off, s.len() as int),
                i - off,
            ) + off,
{
    let t = s.subrange(off, s.len() as int);
    assert forall|i: int| off <= i <= s.len() implies #[trigger] digits_end(s, i) == digits_end(
        t,
        i - off,
    ) + off by {
        lemma_digits_end_shift_one(s, off, i);
    }
}

proof fn lemma_digits_end_shift_one(s: Seq<char>, off: int, i: int)
    requires
        0 <= off <= i <= s.len(),
    ensures
        digits_end(s, i) == digits_end(s.subrange(off, s.len() as int), i - off) + off,
    decreases s.len() - i,
{
    let t = s.subrange(off, s.len() as int);
    if i < s.len() && is_digit(s[i]) {
        assert(t[i - off] == s[i]);
        lemma_digits_end_shift_one(s, off, i + 1);
    } else {
        if i < s.len() {
            assert(t[i - off] == s[i]);
        }
    }
}

// ----- idempotence of the normalizer -----

/// A character the normalizer passes through unchanged: neither an
/// uppercase ASCII letter nor a separator.
pub open spec fn is_plain(c: char) -> bool {
    !is_ascii_upper(c) && !is_sep(c)
}

proof fn lemma_fold_plain_out(s: Seq<char>, i: int, acc: (Seq<char>, bool))
    requires
        forall|j: int| 0 <= j < acc.0.len() ==> is_plain(#[trigger] acc.0[j]),
    ensures
        forall|j: int|
            0 <= j < kebab_fold(s, i, acc).0.len() ==> is_plain(
                #[trigger] kebab_fold(s, i, acc).0[j],
            ),
    decreases s.len() - i,
{
    if 0 <= i < s.len() {
        let acc2 = kebab_step(acc, s[i]);
        assert forall|j: int| 0 <= j < acc2.0.len() implies is_plain(#[trigger] acc2.0[j]) by {
            assert(is_plain('-'));
            if is_ascii_upper(s[i]) {
                assert(is_plain(lower_char(s[i])));
            }
        }
        lemma_fold_plain_out(s, i + 1, acc2);
        assert(kebab_fold(s, i, acc) == kebab_fold(s, i + 1, acc2));
    }
}

/// On a text of plain characters the fold appends the text as it stands.
proof fn lemma_fold_on_plain(s: Seq<char>, i: int, acc: (Seq<char>, bool))
    requires
        0 <= i <= s.len(),
        forall|j: int| 0 <= j < s.len() ==> is_plain(#[trigger] s[j]),
    ensures
        kebab_fold(s, i, acc).0 == acc.0 + s.subrange(i, s.len() as int),
    decreases s.len() - i,
{
    if i == s.len() {
        assert(acc.0 + s.subrange(i, s.len() as int) =~= acc.0);
    } else {
        let acc2 = kebab_step(acc, s[i]);
        assert(acc2.0 == acc.0.push(s[i]));
        lemma_fold_on_plain(s, i + 1, acc2);
        assert(acc.0.push(s[i]) + s.subrange(i + 1, s.len() as int) =~= acc.0 + s.subrange(
            i,
            s.len() as int,
        ));
    }
}

proof fn lemma_drop_leading_props(s: Seq<char>, c: char)
    ensures
        drop_leading(s, c).len() > 0 ==> drop_leading(s, c)[0] != c,
        forall|j: int|
            0 <= j < drop_leading(s, c).len() ==> exists|k: int|
                0 <= k < s.len() && #[trigger] drop_leading(s, c)[j] == s[k],
    decreases s.len(),
{
    if s.len() > 0 && s[0] == c {
        lemma_drop_leading_props(s.drop_first(), c);
        assert forall|j: int| 0 <= j < drop_leading(s, c).len() implies exists|k: int|
            0 <= k < s.len() && #[trigger] drop_leading(s, c)[j] == s[k] by {
            let t = s.drop_first();
            assert(drop_leading(s, c) == drop_leading(t, c));
            let k0 = choose|k: int| 0 <= k < t.len() && drop_leading(t, c)[j] == t[k];
            assert(t[k0] == s[k0 + 1]);
        }
    }
}

proof fn lemma_drop_trailing_props(s: Seq<char>, c: char)
    ensures
        drop_trailing(s, c).len() <= s.len(),
        drop_trailing(s, c).len() > 0 ==> drop_trailing(s, c).last() != c,
        drop_trailing(s, c).len() > 0 ==> drop_trailing(s, c)[0] == s[0],
        forall|j: int|
            0 <= j < drop_trailing(s, c).len() ==> #[trigger] drop_trailing(s, c)[j] == s[j],
    decreases s.len(),
{
    if s.len() > 0 && s.last() == c {
        lemma_drop_trailing_props(s.drop_last(), c);
        let t = s.drop_last();
        assert(drop_trailing(s, c) == drop_trailing(t, c));
        assert forall|j: int| 0 <= j < drop_trailing(s, c).len() implies #[trigger] drop_trailing(
            s,
            c,
        )[j] == s[j] by {
            assert(drop_trailing(t, c)[j] == t[j]);
            assert(t[j] == s[j]);
        }
    }
}

/// The normalizer is idempotent: a token it has produced it returns
/// unchanged.
pub proof fn lemma_kebab_idempotent(s: Seq<char>)
    ensures
        kebab(kebab(s)) == kebab(s),
{
    let a = kebab_fold(s, 0, (Seq::empty(), false)).0;
    let b = drop_leading(a, '-');
    let u = drop_trailing(b, '-');
    assert(u == kebab(s));
    lemma_fold_plain_out(s, 0, (Seq::empty(), false));
    lemma_drop_leading_props(a, '-');
    lemma_drop_trailing_props(b, '-');
    assert(forall|j: int| 0 <= j < b.len() ==> is_plain(#[trigger] b[j]));
    assert forall|j: int| 0 <= j < u.len() implies is_plain(#[trigger] u[j]) by {
        assert(u[j] == b[j]);
    }
    lemma_fold_on_plain(u, 0, (Seq::<char>::empty(), false));
    let a2 = kebab_fold(u, 0, (Seq::empty(), false)).0;
    assert(a2 =~= u);
    if u.len() > 0 {
        assert(u[0] == b[0]);
        assert(u[0] != '-');
        assert(u.last() != '-');
    }
    assert(drop_leading(u, '-') == u);
    assert(drop_trailing(u, '-') == u);
}

/// Dropping a leading run of `c` leaves the tail past that run.
proof fn lemma_drop_leading_is_subrange(s: Seq<char>, c: char, k: int)
    requires
        0 <= k <= s.len(),
        forall|j: int| 0 <= j < k ==> s[j] == c,
        k == s.len() || s[k] != c,
    ensures
        drop_leading(s, c) == s.subrange(k, s.len() as int),
    decreases k,
{
    if k == 0 {
        if s.len() > 0 && s[0] == c {
            assert(false);
        }
        assert(s.subrange(0, s.len() as int) =~= s);
    } else {
        assert(s[0] == c);
        lemma_drop_leading_is_subrange(s.drop_first(), c, k - 1);
        assert(s.drop_first().subrange(k - 1, s.drop_first().len() as int) =~= s.subrange(
            k,
            s.len() as int,
        ));
    }
}

/// Dropping a trailing run of `c` leaves the head before that run.
pub(crate) proof fn lemma_drop_trailing_is_subrange(s: Seq<char>, c: char, k: int)
    requires
        0 <= k <= s.len(),
        forall|j: int| k <= j < s.len() ==> s[j] == c,
        k == 0 || s[k - 1] != c,
    ensures
        drop_trailing(s, c) == s.subrange(0, k),
    decreases s.len(),
{
    if s.len() > 0 && s.last() == c {
        assert(k < s.len());
        lemma_drop_trailing_is_subrange(s.drop_last(), c, k);
        assert(s.drop_last().subrange(0, k) =~= s.subrange(0, k));
    } else {
        assert(k == s.len());
        assert(s.subrange(0, s.len() as int) =~= s);
    }
}

} // verus!
