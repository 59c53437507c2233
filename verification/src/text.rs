//! Character-level text utilities shared by the parser, the nester and the
//! schema engine: whitespace trimming, first-occurrence search, splitting,
//! lexicographic ordering and decimal digits, each with a mathematical
//! specification over `Seq<char>`.

use vstd::prelude::*;
use vstd::string::StrSliceExecFns;

verus! {

/// A character with the Unicode `White_Space` property, the class that
/// `str::trim` removes: space, the control characters tab through carriage
/// return, next line, no-break space, ogham space mark, the general
/// punctuation spaces, line and paragraph separators, narrow and medium
/// mathematical spaces, and the ideographic space.
pub open spec fn is_space(c: char) -> bool {
    let u = c as u32;
    u == 0x20 || (0x09 <= u && u <= 0x0D) || u == 0x85 || u == 0xA0 || u == 0x1680 || (0x2000
        <= u && u <= 0x200A) || u == 0x2028 || u == 0x2029 || u == 0x202F || u == 0x205F || u
        == 0x3000
}

/// Runtime test for [`is_space`].
pub fn is_space_char(c: char) -> (r: bool)
    ensures
        r == is_space(c),
{
    let u = c as u32;
    u == 0x20 || (0x09 <= u && u <= 0x0D) || u == 0x85 || u == 0xA0 || u == 0x1680 || (0x2000
        <= u && u <= 0x200A) || u == 0x2028 || u == 0x2029 || u == 0x202F || u == 0x205F || u
        == 0x3000
}

/// The text with leading whitespace removed.
pub open spec fn trim_start_spec(s: Seq<char>) -> Seq<char>
    decreases s.len(),
{
    if s.len() > 0 && is_space(s[0]) {
        trim_start_spec(s.drop_first())
    } else {
        s
    }
}

/// The text with trailing whitespace removed.
pub open spec fn trim_end_spec(s: Seq<char>) -> Seq<char>
    decreases s.len(),
{
    if s.len() > 0 && is_space(s[s.len() - 1]) {
        trim_end_spec(s.drop_last())
    } else {
        s
    }
}

/// The text with both leading and trailing whitespace removed.
pub open spec fn trim_spec(s: Seq<char>) -> Seq<char> {
    trim_end_spec(trim_start_spec(s))
}

proof fn lemma_trim_start_skip(s: Seq<char>, a: int)
    requires
        0 <= a <= s.len(),
        forall|i: int| 0 <= i < a ==> is_space(s[i]),
        a < s.len() ==> !is_space(s[a]),
    ensures
        trim_start_spec(s) =~= s.skip(a),
    decreases a,
{
    if a == 0 {
        assert(s.skip(0) =~= s);
    } else {
        lemma_trim_start_skip(s.drop_first(), a - 1);
        assert(s.drop_first().skip(a - 1) =~= s.skip(a));
    }
}

proof fn lemma_trim_end_take(s: Seq<char>, b: int)
    requires
        0 <= b <= s.len(),
        forall|i: int| b <= i < s.len() ==> is_space(s[i]),
        b > 0 ==> !is_space(s[b - 1]),
    ensures
        trim_end_spec(s) =~= s.take(b),
    decreases s.len() - b,
{
    if b == s.len() {
        assert(s.take(b) =~= s);
    } else {
        lemma_trim_end_take(s.drop_last(), b);
        assert(s.drop_last().take(b) =~= s.take(b));
    }
}

/// Removes leading and trailing whitespace, returning a borrow of the middle.
pub fn trim_of<'a>(s: &'a str) -> (r: &'a str)
    ensures
        r@ == trim_spec(s@),
{
    let n = s.unicode_len();
    let mut a: usize = 0;
    while a < n && is_space_char(s.get_char(a))
        invariant
            0 <= a <= n == s@.len(),
            forall|i: int| 0 <= i < a ==> is_space(s@[i]),
        decreases n - a,
    {
        a = a + 1;
    }
    let mut b: usize = n;
    while b > a && is_space_char(s.get_char(b - 1))
        invariant
            a <= b <= n == s@.len(),
            forall|i: int| b <= i < n ==> is_space(s@[i]),
        decreases b,
    {
        b = b - 1;
    }
    proof {
        lemma_trim_start_skip(s@, a as int);
        let t = s@.skip(a as int);
        lemma_trim_end_take(t, b - a);
        assert(t.take(b - a) =~= s@.subrange(a as int, b as int));
    }
    s.substring_char(a, b)
}

/// Trimming never introduces a character: what is absent stays absent.
pub proof fn lemma_trim_preserves_absent(s: Seq<char>, c: char)
    requires
        forall|j: int| 0 <= j < s.len() ==> s[j] != c,
    ensures
        forall|j: int| 0 <= j < trim_spec(s).len() ==> trim_spec(s)[j] != c,
{
    lemma_trim_start_absent(s, c);
    lemma_trim_end_absent(trim_start_spec(s), c);
}

proof fn lemma_trim_start_absent(s: Seq<char>, c: char)
    requires
        forall|j: int| 0 <= j < s.len() ==> s[j] != c,
    ensures
        forall|j: int| 0 <= j < trim_start_spec(s).len() ==> trim_start_spec(s)[j] != c,
    decreases s.len(),
{
    if s.len() > 0 && is_space(s[0]) {
        assert forall|j: int| 0 <= j < s.drop_first().len() implies s.drop_first()[j] != c by {
            assert(s.drop_first()[j] == s[j + 1]);
        }
        lemma_trim_start_absent(s.drop_first(), c);
        assert(trim_start_spec(s) == trim_start_spec(s.drop_first()));
    }
}

proof fn lemma_trim_end_absent(s: Seq<char>, c: char)
    requires
        forall|j: int| 0 <= j < s.len() ==> s[j] != c,
    ensures
        forall|j: int| 0 <= j < trim_end_spec(s).len() ==> trim_end_spec(s)[j] != c,
    decreases s.len(),
{
    if s.len() > 0 && is_space(s[s.len() - 1]) {
        assert forall|j: int| 0 <= j < s.drop_last().len() implies s.drop_last()[j] != c by {
            assert(s.drop_last()[j] == s[j]);
        }
        lemma_trim_end_absent(s.drop_last(), c);
        assert(trim_end_spec(s) == trim_end_spec(s.drop_last()));
    }
}

/// Index of the first occurrence of `c` in `s`, or `s.len()` when absent.
pub open spec fn first_at(s: Seq<char>, c: char) -> int
    decreases s.len(),
{
    if s.len() == 0 {
        0
    } else if s[0] == c {
        0
    } else {
        1 + first_at(s.drop_first(), c)
    }
}

pub proof fn lemma_first_at(s: Seq<char>, c: char)
    ensures
        0 <= first_at(s, c) <= s.len(),
        forall|i: int| 0 <= i < first_at(s, c) ==> s[i] != c,
        first_at(s, c) < s.len() ==> s[first_at(s, c)] == c,
    decreases s.len(),
{
    if s.len() > 0 && s[0] != c {
        lemma_first_at(s.drop_first(), c);
        assert forall|i: int| 0 <= i < first_at(s, c) implies s[i] != c by {
            if i > 0 {
                assert(s.drop_first()[i - 1] == s[i]);
            }
        }
    }
}

/// The first occurrence is pinned by its characterization.
pub proof fn lemma_first_at_is(s: Seq<char>, c: char, k: int)
    requires
        0 <= k <= s.len(),
        forall|i: int| 0 <= i < k ==> s[i] != c,
        k < s.len() ==> s[k] == c,
    ensures
        first_at(s, c) == k,
    decreases k,
{
    if s.len() == 0 {
    } else if k == 0 {
    } else {
        assert(s[0] != c);
        lemma_first_at_is(s.drop_first(), c, k - 1);
    }
}

/// Finds the first occurrence of `c`, returning the length when absent.
pub fn find_char(s: &str, c: char) -> (r: usize)
    ensures
        r == first_at(s@, c),
{
    let n = s.unicode_len();
    let mut i: usize = 0;
    while i < n && s.get_char(i) != c
        invariant
            0 <= i <= n == s@.len(),
            forall|j: int| 0 <= j < i ==> s@[j] != c,
        decreases n - i,
    {
        i = i + 1;
    }
    proof {
        lemma_first_at_is(s@, c, i as int);
    }
    i
}

/// Strict lexicographic order on character sequences, by code point. UTF-8
/// byte order agrees with code-point order, so this is the order `str`
/// comparison gives at runtime.
pub open spec fn lex_lt(a: Seq<char>, b: Seq<char>) -> bool
    decreases a.len(),
{
    b.len() > 0 && (a.len() == 0 || (a[0] as u32) < (b[0] as u32) || (a[0] == b[0] && lex_lt(
        a.drop_first(),
        b.drop_first(),
    )))
}

pub proof fn lemma_lex_lt_irrefl(a: Seq<char>)
    ensures
        !lex_lt(a, a),
    decreases a.len(),
{
    if a.len() > 0 {
        lemma_lex_lt_irrefl(a.drop_first());
    }
}

pub proof fn lemma_lex_lt_trans(a: Seq<char>, b: Seq<char>, c: Seq<char>)
    requires
        lex_lt(a, b),
        lex_lt(b, c),
    ensures
        lex_lt(a, c),
    decreases a.len(),
{
    if a.len() > 0 && b.len() > 0 && a[0] == b[0] && b[0] == c[0] {
        lemma_lex_lt_trans(a.drop_first(), b.drop_first(), c.drop_first());
    }
}

/// Two sequences neither of which precedes the other are equal.
pub proof fn lemma_lex_lt_connected(a: Seq<char>, b: Seq<char>)
    requires
        !lex_lt(a, b),
        !lex_lt(b, a),
    ensures
        a =~= b,
    decreases a.len(),
{
    if a.len() == 0 {
        assert(b.len() == 0);
        assert(a =~= b);
    } else if b.len() == 0 {
        assert(lex_lt(b, a));
    } else {
        assert(!((a[0] as u32) < (b[0] as u32)));
        assert(!((b[0] as u32) < (a[0] as u32)));
        assert(a[0] as u32 == b[0] as u32);
        vstd::utf8::char_u32_cast(a[0], a[0] as u32);
        vstd::utf8::char_u32_cast(b[0], b[0] as u32);
        assert(a[0] == b[0]);
        lemma_lex_lt_connected(a.drop_first(), b.drop_first());
        assert(a.len() == b.len());
        assert forall|i: int| 0 <= i < a.len() implies a[i] == b[i] by {
            if i > 0 {
                assert(a.drop_first()[i - 1] == b.drop_first()[i - 1]);
            }
        }
    }
}

/// Dropping a common prefix does not change the order.
pub proof fn lemma_lex_lt_common_prefix(a: Seq<char>, b: Seq<char>, k: int)
    requires
        0 <= k <= a.len(),
        k <= b.len(),
        forall|j: int| 0 <= j < k ==> a[j] == b[j],
    ensures
        lex_lt(a, b) == lex_lt(a.skip(k), b.skip(k)),
    decreases k,
{
    if k > 0 {
        assert(a.len() > 0 && b.len() > 0 && a[0] == b[0]);
        lemma_lex_lt_common_prefix(a.drop_first(), b.drop_first(), k - 1);
        assert(a.drop_first().skip(k - 1) =~= a.skip(k));
        assert(b.drop_first().skip(k - 1) =~= b.skip(k));
    } else {
        assert(a.skip(0) =~= a);
        assert(b.skip(0) =~= b);
    }
}

/// Decides [`lex_lt`] on two string slices.
pub fn str_lt(a: &str, b: &str) -> (r: bool)
    ensures
        r == lex_lt(a@, b@),
{
    let an = a.unicode_len();
    let bn = b.unicode_len();
    let mut i: usize = 0;
    loop
        invariant
            0 <= i <= an == a@.len(),
            i <= bn == b@.len(),
            forall|j: int| 0 <= j < i ==> a@[j] == b@[j],
        ensures
            lex_lt(a@, b@) == lex_lt(a@.skip(i as int), b@.skip(i as int)),
            if i < an && i < bn {
                a@[i as int] != b@[i as int]
            } else {
                i == an || i == bn
            },
        decreases an - i,
    {
        proof {
            lemma_lex_lt_common_prefix(a@, b@, i as int);
        }
        if i >= an || i >= bn {
            break ;
        }
        let ca = a.get_char(i);
        let cb = b.get_char(i);
        if ca != cb {
            proof {
                lemma_lex_lt_common_prefix(a@, b@, i as int);
            }
            break ;
        }
        i = i + 1;
    }
    if i < an && i < bn {
        let ca = a.get_char(i);
        let cb = b.get_char(i);
        proof {
            assert(a@.skip(i as int)[0] == a@[i as int]);
            assert(b@.skip(i as int)[0] == b@[i as int]);
        }
        (ca as u32) < (cb as u32)
    } else {
        proof {
            if i == an && i < bn {
                assert(a@.skip(i as int).len() == 0);
                assert(b@.skip(i as int).len() > 0);
            }
            if i == bn {
                assert(b@.skip(i as int).len() == 0);
            }
        }
        an < bn
    }
}

/// Decides character-sequence equality of two string slices.
pub fn str_eq(a: &str, b: &str) -> (r: bool)
    ensures
        r == (a@ == b@),
{
    let an = a.unicode_len();
    let bn = b.unicode_len();
    if an != bn {
        return false;
    }
    let mut i: usize = 0;
    while i < an
        invariant
            0 <= i <= an == a@.len(),
            an == b@.len(),
            forall|j: int| 0 <= j < i ==> a@[j] == b@[j],
        decreases an - i,
    {
        if a.get_char(i) != b.get_char(i) {
            return false;
        }
        i = i + 1;
    }
    proof {
        assert(a@ =~= b@);
    }
    true
}

/// The pieces of `s` between occurrences of the separator `c`; an empty text
/// yields one empty piece, and separators at the ends yield empty pieces.
pub open spec fn split_at_char(s: Seq<char>, c: char) -> Seq<Seq<char>>
    decreases s.len(),
{
    let i = first_at(s, c);
    if 0 <= i < s.len() {
        seq![s.take(i)] + split_at_char(s.skip(i + 1), c)
    } else {
        seq![s]
    }
}

pub proof fn lemma_split_at_char_len(s: Seq<char>, c: char)
    ensures
        split_at_char(s, c).len() >= 1,
    decreases s.len(),
{
    let i = first_at(s, c);
    lemma_first_at(s, c);
    if 0 <= i < s.len() {
        lemma_split_at_char_len(s.skip(i + 1), c);
    }
}

/// Splits a string on a separator character.
pub fn split_str(s: &str, c: char) -> (parts: Vec<String>)
    ensures
        parts.deep_view() == split_at_char(s@, c),
{
    let mut parts: Vec<String> = Vec::new();
    let mut rest: &str = s;
    loop
        invariant_except_break
            parts.deep_view() + split_at_char(rest@, c) =~= split_at_char(s@, c),
        ensures
            parts.deep_view() == split_at_char(s@, c),
        decreases rest@.len(),
    {
        let n = rest.unicode_len();
        let i = find_char(rest, c);
        proof {
            lemma_first_at(rest@, c);
        }
        if i < n {
            let ghost before = parts.deep_view();
            let piece = rest.substring_char(0, i);
            proof {
                assert(piece@ =~= rest@.take(i as int));
            }
            parts.push(piece.to_owned());
            let tail = rest.substring_char(i + 1, n);
            proof {
                assert(tail@ =~= rest@.skip(i as int + 1));
                assert(parts.deep_view() =~= before + seq![rest@.take(i as int)]);
                assert((before + seq![rest@.take(i as int)]) + split_at_char(rest@.skip(i as int + 1), c)
                    =~= before + (seq![rest@.take(i as int)] + split_at_char(rest@.skip(i as int + 1), c)));
            }
            rest = tail;
        } else {
            let ghost before = parts.deep_view();
            parts.push(rest.to_owned());
            proof {
                assert(parts.deep_view() =~= before + seq![rest@]);
            }
            break ;
        }
    }
    parts
}

/// The pieces joined back with the separator between them.
pub open spec fn join_with(parts: Seq<Seq<char>>, c: char) -> Seq<char>
    decreases parts.len(),
{
    if parts.len() == 0 {
        Seq::empty()
    } else if parts.len() == 1 {
        parts[0]
    } else {
        parts[0] + seq![c] + join_with(parts.drop_first(), c)
    }
}

/// Joining undoes splitting.
pub proof fn lemma_split_join(s: Seq<char>, c: char)
    ensures
        join_with(split_at_char(s, c), c) == s,
    decreases s.len(),
{
    let i = first_at(s, c);
    lemma_first_at(s, c);
    if 0 <= i < s.len() {
        lemma_split_join(s.skip(i + 1), c);
        lemma_split_at_char_len(s.skip(i + 1), c);
        let parts = split_at_char(s, c);
        assert(parts == seq![s.take(i)] + split_at_char(s.skip(i + 1), c));
        assert(parts.len() >= 2);
        assert(parts[0] == s.take(i));
        assert(parts.drop_first() =~= split_at_char(s.skip(i + 1), c));
        assert(join_with(parts, c) == s.take(i) + seq![c] + s.skip(i + 1));
        assert(s.take(i) + seq![c] + s.skip(i + 1) =~= s);
    }
}

/// Two texts with the same pieces are the same text.
pub proof fn lemma_split_injective(s1: Seq<char>, s2: Seq<char>, c: char)
    requires
        split_at_char(s1, c) == split_at_char(s2, c),
    ensures
        s1 == s2,
{
    lemma_split_join(s1, c);
    lemma_split_join(s2, c);
}

/// ASCII-case-insensitive equality of two characters.
pub open spec fn char_eq_ic(x: char, y: char) -> bool {
    x == y || (is_ascii_upper(x) && x as u32 + 0x20 == y as u32) || (is_ascii_upper(y) && y as u32
        + 0x20 == x as u32)
}

pub open spec fn is_ascii_upper(c: char) -> bool {
    0x41 <= c as u32 && c as u32 <= 0x5A
}

/// ASCII-case-insensitive equality of two character sequences.
pub open spec fn eq_ignore_ascii(a: Seq<char>, b: Seq<char>) -> bool {
    a.len() == b.len() && forall|i: int| 0 <= i < a.len() ==> char_eq_ic(a[i], b[i])
}

/// Decides [`eq_ignore_ascii`] on two string slices.
pub fn str_eq_ignore_ascii_case(a: &str, b: &str) -> (r: bool)
    ensures
        r == eq_ignore_ascii(a@, b@),
{
    let an = a.unicode_len();
    let bn = b.unicode_len();
    if an != bn {
        return false;
    }
    let mut i: usize = 0;
    while i < an
        invariant
            0 <= i <= an == a@.len(),
            an == b@.len(),
            forall|j: int| 0 <= j < i ==> char_eq_ic(a@[j], b@[j]),
        decreases an - i,
    {
        let x = a.get_char(i) as u32;
        let y = b.get_char(i) as u32;
        let eq = x == y || (0x41 <= x && x <= 0x5A && x + 0x20 == y) || (0x41 <= y && y <= 0x5A && y
            + 0x20 == x);
        if !eq {
            return false;
        }
        i = i + 1;
    }
    true
}

/// A decimal digit `0` through `9`.
pub open spec fn is_digit(c: char) -> bool {
    0x30 <= c as u32 && c as u32 <= 0x39
}

pub open spec fn digit_val(c: char) -> int {
    c as u32 - 0x30
}

/// Every character is a decimal digit (an empty sequence qualifies).
pub open spec fn all_digits(s: Seq<char>) -> bool {
    forall|i: int| 0 <= i < s.len() ==> is_digit(s[i])
}

/// The number a sequence of decimal digits denotes, most significant first.
pub open spec fn dec_value(s: Seq<char>) -> int
    decreases s.len(),
{
    if s.len() == 0 {
        0
    } else {
        dec_value(s.drop_last()) * 10 + digit_val(s.last())
    }
}

pub proof fn lemma_dec_value_nonneg(s: Seq<char>)
    requires
        all_digits(s),
    ensures
        dec_value(s) >= 0,
    decreases s.len(),
{
    if s.len() > 0 {
        lemma_dec_value_nonneg(s.drop_last());
    }
}

/// A digit string's value only grows as digits are appended.
pub proof fn lemma_dec_value_prefix_le(s: Seq<char>, k: int)
    requires
        all_digits(s),
        0 <= k <= s.len(),
    ensures
        dec_value(s.take(k)) <= dec_value(s),
    decreases s.len() - k,
{
    if k < s.len() {
        lemma_dec_value_prefix_le(s, k + 1);
        let t = s.take(k + 1);
        assert(t.drop_last() =~= s.take(k));
        assert(all_digits(t.drop_last()));
        lemma_dec_value_nonneg(t.drop_last());
        assert(dec_value(t) == dec_value(s.take(k)) * 10 + digit_val(t.last()));
        assert(dec_value(s.take(k)) <= dec_value(s.take(k)) * 10 + digit_val(t.last()))
            by (nonlinear_arith)
            requires
                dec_value(s.take(k)) >= 0,
                digit_val(t.last()) >= 0,
        ;
    } else {
        assert(s.take(k) =~= s);
    }
}

/// Reads a decimal number, refusing anything that is not all digits, is
/// empty, or whose value exceeds `cap`.
pub fn parse_decimal_capped(s: &str, cap: u64) -> (r: Option<u64>)
    requires
        cap >= 9,
    ensures
        match r {
            Some(v) => s@.len() > 0 && all_digits(s@) && v == dec_value(s@) && v <= cap,
            None => s@.len() == 0 || !all_digits(s@) || dec_value(s@) > cap,
        },
{
    let n = s.unicode_len();
    if n == 0 {
        return None;
    }
    let mut i: usize = 0;
    let mut val: u64 = 0;
    while i < n
        invariant
            0 <= i <= n == s@.len(),
            cap >= 9,
            all_digits(s@.take(i as int)),
            val == dec_value(s@.take(i as int)),
            val <= cap,
        decreases n - i,
    {
        let c = s.get_char(i) as u32;
        if !(0x30 <= c && c <= 0x39) {
            assert(!is_digit(s@[i as int]));
            return None;
        }
        let d: u64 = (c - 0x30) as u64;
        if val > (cap - d) / 10 {
            proof {
                let t = s@.take(i as int + 1);
                assert(t.drop_last() =~= s@.take(i as int));
                assert(dec_value(t) == val * 10 + d);
                assert(val * 10 + d > cap) by (nonlinear_arith)
                    requires
                        val > (cap - d) / 10,
                        0 <= d <= 9,
                        cap >= 9,
                        val >= 0,
                ;
                assert(all_digits(t)) by {
                    assert(forall|j: int| 0 <= j < t.len() ==> is_digit(#[trigger] t[j]));
                }
                if all_digits(s@) {
                    lemma_dec_value_prefix_le(s@, i as int + 1);
                }
                assert(s@.take(s@.len() as int) =~= s@);
            }
            return None;
        }
        proof {
            assert(val * 10 + d <= cap) by (nonlinear_arith)
                requires
                    val <= (cap - d) / 10,
                    0 <= d <= 9,
                    cap >= 9,
                    val >= 0,
            ;
            let t = s@.take(i as int + 1);
            assert(t.drop_last() =~= s@.take(i as int));
        }
        val = val * 10 + d;
        i = i + 1;
    }
    proof {
        assert(s@.take(n as int) =~= s@);
    }
    Some(val)
}

} // verus!
