//! Parsing of console input: trimming ASCII whitespace and reading an
//! unsigned decimal integer, as `str::trim` + `str::parse` would.

use vstd::prelude::*;

verus! {

/// ASCII whitespace, as `char::is_whitespace` accepts it on ASCII bytes:
/// space, tab, line feed, vertical tab, form feed, carriage return.
pub open spec fn is_ascii_ws(b: u8) -> bool {
    b == 32 || b == 9 || b == 10 || b == 11 || b == 12 || b == 13
}

/// An ASCII decimal digit.
pub open spec fn is_digit(b: u8) -> bool {
    48 <= b <= 57
}

/// Every byte of `s` is an ASCII decimal digit.
pub open spec fn all_digits(s: Seq<u8>) -> bool {
    forall|i: int| 0 <= i < s.len() ==> is_digit(#[trigger] s[i])
}

/// The value of a sequence of decimal digits, most significant first.
pub open spec fn digits_val(s: Seq<u8>) -> nat
    decreases s.len(),
{
    if s.len() == 0 {
        0
    } else {
        digits_val(s.drop_last()) * 10 + (s.last() - 48) as nat
    }
}

/// Length of the run of whitespace at the start of `s`.
pub open spec fn ws_prefix_len(s: Seq<u8>) -> nat
    decreases s.len(),
{
    if s.len() > 0 && is_ascii_ws(s[0]) {
        1 + ws_prefix_len(s.subrange(1, s.len() as int))
    } else {
        0
    }
}

/// Length of the run of whitespace at the end of `s`.
pub open spec fn ws_suffix_len(s: Seq<u8>) -> nat
    decreases s.len(),
{
    if s.len() > 0 && is_ascii_ws(s.last()) {
        1 + ws_suffix_len(s.drop_last())
    } else {
        0
    }
}

/// `s` with leading and trailing ASCII whitespace removed.
pub open spec fn trimmed(s: Seq<u8>) -> Seq<u8> {
    if ws_prefix_len(s) == s.len() {
        Seq::empty()
    } else {
        s.subrange(ws_prefix_len(s) as int, s.len() - ws_suffix_len(s))
    }
}

/// The digits of the trimmed text: an optional single leading `+` sign is
/// allowed, as `str::parse` allows it on unsigned integers.
pub open spec fn digits_part(s: Seq<u8>) -> Seq<u8> {
    let t = trimmed(s);
    if t.len() > 0 && t[0] == 43 {
        t.drop_first()
    } else {
        t
    }
}

/// What `input.trim().parse::<u64>()` yields: the decimal value of the
/// trimmed text (after an optional `+` sign) when it is a non-empty run of
/// digits whose value fits in `u64`, and nothing otherwise.
pub open spec fn parse_spec(s: Seq<u8>) -> Option<u64> {
    let d = digits_part(s);
    if d.len() > 0 && all_digits(d) && digits_val(d) <= u64::MAX {
        Some(digits_val(d) as u64)
    } else {
        None
    }
}

/// A run of leading whitespace of length `i`, stopped by a non-whitespace
/// byte (or the end), is exactly the whitespace prefix.
proof fn lemma_ws_prefix_from_shape(s: Seq<u8>, i: int)
    requires
        0 <= i <= s.len(),
        forall|k: int| 0 <= k < i ==> is_ascii_ws(#[trigger] s[k]),
        i == s.len() || !is_ascii_ws(s[i]),
    ensures
        ws_prefix_len(s) == i,
    decreases s.len(),
{
    if i > 0 {
        let rest = s.subrange(1, s.len() as int);
        assert(forall|k: int| 0 <= k < i - 1 ==> is_ascii_ws(#[trigger] rest[k]));
        lemma_ws_prefix_from_shape(rest, i - 1);
    }
}

/// A run of trailing whitespace of length `j`, stopped by a non-whitespace
/// byte (or the start), is exactly the whitespace suffix.
proof fn lemma_ws_suffix_from_shape(s: Seq<u8>, j: int)
    requires
        0 <= j <= s.len(),
        forall|k: int| s.len() - j <= k < s.len() ==> is_ascii_ws(#[trigger] s[k]),
        j == s.len() || !is_ascii_ws(s[s.len() - j - 1]),
    ensures
        ws_suffix_len(s) == j,
    decreases s.len(),
{
    if j > 0 {
        let rest = s.drop_last();
        assert(forall|k: int| rest.len() - (j - 1) <= k < rest.len() ==> is_ascii_ws(
            #[trigger] rest[k],
        ));
        lemma_ws_suffix_from_shape(rest, j - 1);
    }
}

/// Reading more digits never makes the value smaller.
proof fn lemma_digits_val_prefix_le(t: Seq<u8>, m: int)
    requires
        0 <= m <= t.len(),
    ensures
        digits_val(t.subrange(0, m)) <= digits_val(t),
    decreases t.len(),
{
    if m == t.len() {
        assert(t.subrange(0, m) =~= t);
    } else {
        let shorter = t.drop_last();
        lemma_digits_val_prefix_le(shorter, m);
        assert(shorter.subrange(0, m) =~= t.subrange(0, m));
    }
}

fn byte_is_ws(b: u8) -> (r: bool)
    ensures
        r == is_ascii_ws(b),
{
    b == 32 || (9 <= b && b <= 13)
}

fn byte_is_digit(b: u8) -> (r: bool)
    ensures
        r == is_digit(b),
{
    48 <= b && b <= 57
}

/// Parse a line of user input as an unsigned decimal integer, ignoring
/// leading and trailing whitespace, exactly as `input.trim().parse::<u64>()`
/// would: `Some` on a non-empty run of digits (an optional `+` sign ahead)
/// whose value fits, `None` on anything else.
pub fn parse_u64(s: &[u8]) -> (r: Option<u64>)
    ensures
        r == parse_spec(s@),
{
    let n = s.len();
    let mut i: usize = 0;
    while i < n
        invariant
            0 <= i <= n,
            n == s@.len(),
            forall|k: int| 0 <= k < i ==> is_ascii_ws(#[trigger] s@[k]),
        ensures
            0 <= i <= n,
            forall|k: int| 0 <= k < i ==> is_ascii_ws(#[trigger] s@[k]),
            i == n || !is_ascii_ws(s@[i as int]),
        decreases n - i,
    {
        if !byte_is_ws(s[i]) {
            break ;
        }
        i = i + 1;
    }
    proof {
        lemma_ws_prefix_from_shape(s@, i as int);
    }
    if i == n {
        return None;
    }
    let mut j: usize = n;
    while j > i
        invariant
            i < j <= n,
            n == s@.len(),
            !is_ascii_ws(s@[i as int]),
            forall|k: int| j <= k < n ==> is_ascii_ws(#[trigger] s@[k]),
        ensures
            i < j <= n,
            forall|k: int| j <= k < n ==> is_ascii_ws(#[trigger] s@[k]),
            !is_ascii_ws(s@[j - 1]),
        decreases j,
    {
        if !byte_is_ws(s[j - 1]) {
            break ;
        }
        j = j - 1;
    }
    proof {
        lemma_ws_suffix_from_shape(s@, n - j);
        assert(trimmed(s@) =~= s@.subrange(i as int, j as int));
    }
    let start: usize = if s[i] == 43 {
        i + 1
    } else {
        i
    };
    proof {
        if s@[i as int] == 43 {
            assert(trimmed(s@).drop_first() =~= s@.subrange(start as int, j as int));
        }
        assert(digits_part(s@) =~= s@.subrange(start as int, j as int));
    }
    let ghost d_part = digits_part(s@);
    if start == j {
        return None;
    }
    let mut acc: u64 = 0;
    let mut k: usize = start;
    while k < j
        invariant
            start <= k <= j <= n,
            n == s@.len(),
            d_part =~= s@.subrange(start as int, j as int),
            all_digits(s@.subrange(start as int, k as int)),
            acc == digits_val(s@.subrange(start as int, k as int)),
            parse_spec(s@) == (if d_part.len() > 0 && all_digits(d_part) && digits_val(d_part)
                <= u64::MAX {
                Some(digits_val(d_part) as u64)
            } else {
                Option::<u64>::None
            }),
        decreases j - k,
    {
        let b = s[k];
        proof {
            assert(s@.subrange(start as int, k + 1).drop_last() =~= s@.subrange(
                start as int,
                k as int,
            ));
            assert(s@.subrange(start as int, k + 1).last() == s@[k as int]);
        }
        if !byte_is_digit(b) {
            assert(!all_digits(d_part)) by {
                assert(d_part[k - start] == s@[k as int]);
            }
            return None;
        }
        let d: u64 = (b - 48) as u64;
        let wide: u128 = acc as u128 * 10 + d as u128;
        if wide > u64::MAX as u128 {
            proof {
                assert(digits_val(s@.subrange(start as int, k + 1)) == acc * 10 + d);
                lemma_digits_val_prefix_le(d_part, k + 1 - start);
                assert(d_part.subrange(0, k + 1 - start) =~= s@.subrange(start as int, k + 1));
                assert(digits_val(d_part) > u64::MAX);
            }
            return None;
        }
        acc = wide as u64;
        k = k + 1;
    }
    proof {
        assert(s@.subrange(start as int, j as int) =~= d_part);
    }
    Some(acc)
}

} // verus!
