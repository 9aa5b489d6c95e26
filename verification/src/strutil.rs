//! Verified helpers for the character-level work the cron parser needs:
//! digit parsing, decimal rendering, case-insensitive matching, and
//! splitting on separator characters.

use vstd::prelude::*;

verus! {

/// `c` is an ASCII decimal digit.
pub open spec fn is_digit_char(c: char) -> bool {
    '0' <= c && c <= '9'
}

/// Numeric value of a digit character.
pub open spec fn digit_val(c: char) -> nat
    recommends
        is_digit_char(c),
{
    (c as int - '0' as int) as nat
}

/// Every character of `s` is an ASCII decimal digit.
pub open spec fn all_digits(s: Seq<char>) -> bool {
    forall|i: int| 0 <= i < s.len() ==> is_digit_char(#[trigger] s[i])
}

/// Value of a digit string read in base 10 (0 for the empty string).
pub open spec fn digits_val(s: Seq<char>) -> nat
    decreases s.len(),
{
    if s.len() == 0 {
        0
    } else {
        digits_val(s.drop_last()) * 10 + digit_val(s.last())
    }
}

/// The digits of a numeral: one leading `+`, which the standard
/// unsigned parsers accept, is stripped; everything else stays.
pub open spec fn numeral_digits(s: Seq<char>) -> Seq<char> {
    if s.len() > 0 && s[0] == '+' {
        s.skip(1)
    } else {
        s
    }
}

/// What a decimal parse of `s` yields, as `str::parse` to an unsigned
/// type would: the value of a non-empty all-digit string after an
/// optional leading `+`, and nothing otherwise.
pub open spec fn parse_num(s: Seq<char>) -> Option<nat> {
    let digits = numeral_digits(s);
    if digits.len() > 0 && all_digits(digits) {
        Some(digits_val(digits))
    } else {
        None
    }
}

/// Decimal parse of `s` as a `u8`; values over 255 do not parse.
pub open spec fn parse_u8_spec(s: Seq<char>) -> Option<u8> {
    match parse_num(s) {
        Some(n) => if n <= 255 {
            Some(n as u8)
        } else {
            None
        },
        None => None,
    }
}

/// Decimal parse of `s` as a `u32`; values over `u32::MAX` do not parse.
pub open spec fn parse_u32_spec(s: Seq<char>) -> Option<u32> {
    match parse_num(s) {
        Some(n) => if n <= u32::MAX {
            Some(n as u32)
        } else {
            None
        },
        None => None,
    }
}

/// Parse `s` as a base-10 `u8`: an optional leading `+`, then digits.
pub fn parse_u8(s: &str) -> (r: Option<u8>)
    ensures
        r == parse_u8_spec(s@),
{
    let n = s.unicode_len();
    if n == 0 {
        return None;
    }
    let start: usize = if s.get_char(0) == '+' {
        1
    } else {
        0
    };
    let ghost digits = numeral_digits(s@);
    proof {
        if start == 1 {
            assert(digits =~= s@.skip(1));
        } else {
            assert(digits =~= s@);
        }
        assert(forall|j: int| 0 <= j < digits.len() ==> #[trigger] digits[j] == s@[j + start]);
    }
    if start == n {
        return None;
    }
    let mut acc: u32 = 0;
    let mut i: usize = start;
    while i < n
        invariant
            n == s@.len(),
            start <= i <= n,
            digits == numeral_digits(s@),
            digits.len() == n - start,
            forall|j: int| 0 <= j < digits.len() ==> #[trigger] digits[j] == s@[j + start],
            all_digits(digits.take(i - start)),
            digits_val(digits.take(i - start)) <= 255 ==> acc == digits_val(
                digits.take(i - start),
            ),
            digits_val(digits.take(i - start)) > 255 ==> acc == 256,
            acc <= 256,
        decreases n - i,
    {
        let c = s.get_char(i);
        if c < '0' || c > '9' {
            assert(digits[i - start] == s@[i as int]);
            assert(!all_digits(digits));
            return None;
        }
        let d: u32 = (c as u32) - ('0' as u32);
        proof {
            assert(digits.take(i - start + 1).drop_last() =~= digits.take(i - start));
            assert(digits.take(i - start + 1).last() == digits[i - start]);
            assert(digits[i - start] == s@[i as int]);
        }
        acc = acc * 10 + d;
        if acc > 255 {
            acc = 256;
        }
        i += 1;
    }
    proof {
        assert(digits.take(n - start) =~= digits);
        assert(digits.len() > 0);
    }
    if acc <= 255 {
        Some(acc as u8)
    } else {
        None
    }
}

/// Parse `s` as a base-10 `u32`: an optional leading `+`, then digits.
pub fn parse_u32(s: &str) -> (r: Option<u32>)
    ensures
        r == parse_u32_spec(s@),
{
    let n = s.unicode_len();
    if n == 0 {
        return None;
    }
    let start: usize = if s.get_char(0) == '+' {
        1
    } else {
        0
    };
    let ghost digits = numeral_digits(s@);
    proof {
        if start == 1 {
            assert(digits =~= s@.skip(1));
        } else {
            assert(digits =~= s@);
        }
        assert(forall|j: int| 0 <= j < digits.len() ==> #[trigger] digits[j] == s@[j + start]);
    }
    if start == n {
        return None;
    }
    let mut acc: u64 = 0;
    let mut i: usize = start;
    while i < n
        invariant
            n == s@.len(),
            start <= i <= n,
            digits == numeral_digits(s@),
            digits.len() == n - start,
            forall|j: int| 0 <= j < digits.len() ==> #[trigger] digits[j] == s@[j + start],
            all_digits(digits.take(i - start)),
            digits_val(digits.take(i - start)) <= u32::MAX ==> acc == digits_val(
                digits.take(i - start),
            ),
            digits_val(digits.take(i - start)) > u32::MAX ==> acc == u32::MAX as u64 + 1,
            acc <= u32::MAX as u64 + 1,
        decreases n - i,
    {
        let c = s.get_char(i);
        if c < '0' || c > '9' {
            assert(digits[i - start] == s@[i as int]);
            assert(!all_digits(digits));
            return None;
        }
        let d: u64 = (c as u64) - ('0' as u64);
        proof {
            assert(digits.take(i - start + 1).drop_last() =~= digits.take(i - start));
            assert(digits.take(i - start + 1).last() == digits[i - start]);
            assert(digits[i - start] == s@[i as int]);
        }
        acc = acc * 10 + d;
        if acc > u32::MAX as u64 {
            acc = u32::MAX as u64 + 1;
        }
        i += 1;
    }
    proof {
        assert(digits.take(n - start) =~= digits);
        assert(digits.len() > 0);
    }
    if acc <= u32::MAX as u64 {
        Some(acc as u32)
    } else {
        None
    }
}

/// Character-for-character string equality.
pub fn str_eq(a: &str, b: &str) -> (r: bool)
    ensures
        r == (a@ == b@),
{
    let n = a.unicode_len();
    if n != b.unicode_len() {
        return false;
    }
    let mut i: usize = 0;
    while i < n
        invariant
            n == a@.len() == b@.len(),
            0 <= i <= n,
            forall|j: int| 0 <= j < i ==> a@[j] == b@[j],
        decreases n - i,
    {
        if a.get_char(i) != b.get_char(i) {
            return false;
        }
        i += 1;
    }
    proof {
        assert(a@ =~= b@);
    }
    true
}

/// `t` matches `n` up to ASCII case, where `n` is expected lower-case:
/// either the characters are equal, or `t`'s is the upper-case form.
pub open spec fn char_matches_ci(t: char, n: char) -> bool {
    t == n || ('A' <= t && t <= 'Z' && t as int + 32 == n as int)
}

/// `t` equals `n` after ASCII lower-casing of `t` (for lower-case `n`).
pub open spec fn seq_matches_ci(t: Seq<char>, n: Seq<char>) -> bool {
    t.len() == n.len() && forall|i: int| 0 <= i < t.len() ==> char_matches_ci(t[i], #[trigger] n[i])
}

/// Case-insensitive comparison of `t` against a lower-case pattern `n`.
pub fn str_matches_ci(t: &str, n: &str) -> (r: bool)
    ensures
        r == seq_matches_ci(t@, n@),
{
    let len = t.unicode_len();
    if len != n.unicode_len() {
        return false;
    }
    let mut i: usize = 0;
    while i < len
        invariant
            len == t@.len() == n@.len(),
            0 <= i <= len,
            forall|j: int| 0 <= j < i ==> char_matches_ci(t@[j], #[trigger] n@[j]),
        decreases len - i,
    {
        let tc = t.get_char(i);
        let nc = n.get_char(i);
        let upper = 'A' <= tc && tc <= 'Z' && (tc as u32) + 32 == (nc as u32);
        if !(tc == nc || upper) {
            return false;
        }
        i += 1;
    }
    true
}

/// The digit character for a value below ten.
pub open spec fn dec_digit(d: nat) -> char {
    if d == 0 {
        '0'
    } else if d == 1 {
        '1'
    } else if d == 2 {
        '2'
    } else if d == 3 {
        '3'
    } else if d == 4 {
        '4'
    } else if d == 5 {
        '5'
    } else if d == 6 {
        '6'
    } else if d == 7 {
        '7'
    } else if d == 8 {
        '8'
    } else {
        '9'
    }
}

/// Decimal rendering of `n`, without leading zeros (but "0" for zero).
pub open spec fn dec_str(n: nat) -> Seq<char>
    decreases n,
{
    if n < 10 {
        seq![dec_digit(n)]
    } else {
        dec_str(n / 10).push(dec_digit(n % 10))
    }
}

/// Decimal rendering padded with a zero to at least two characters.
pub open spec fn dec2_str(n: nat) -> Seq<char> {
    if n < 10 {
        seq!['0', dec_digit(n)]
    } else {
        dec_str(n)
    }
}

/// Append the single digit `d` to `out`.
pub fn push_digit(out: &mut String, d: u32)
    requires
        d < 10,
    ensures
        final(out)@ == old(out)@ + seq![dec_digit(d as nat)],
{
    proof {
        reveal_strlit("0");
        reveal_strlit("1");
        reveal_strlit("2");
        reveal_strlit("3");
        reveal_strlit("4");
        reveal_strlit("5");
        reveal_strlit("6");
        reveal_strlit("7");
        reveal_strlit("8");
        reveal_strlit("9");
    }
    match d {
        0 => out.append("0"),
        1 => out.append("1"),
        2 => out.append("2"),
        3 => out.append("3"),
        4 => out.append("4"),
        5 => out.append("5"),
        6 => out.append("6"),
        7 => out.append("7"),
        8 => out.append("8"),
        _ => out.append("9"),
    }
    proof {
        assert(out@ =~= old(out)@ + seq![dec_digit(d as nat)]);
    }
}

/// Append the decimal rendering of `n` to `out`.
pub fn push_u32_dec(out: &mut String, n: u32)
    ensures
        final(out)@ == old(out)@ + dec_str(n as nat),
    decreases n,
{
    if n < 10 {
        push_digit(out, n);
    } else {
        assert(n / 10 < n);
        push_u32_dec(out, n / 10);
        push_digit(out, n % 10);
        proof {
            assert(out@ =~= old(out)@ + dec_str(n as nat));
        }
    }
}

/// Append the two-digit-padded decimal rendering of `n` to `out`.
pub fn push_u32_2d(out: &mut String, n: u32)
    ensures
        final(out)@ == old(out)@ + dec2_str(n as nat),
{
    if n < 10 {
        proof {
            reveal_strlit("0");
        }
        out.append("0");
        push_digit(out, n);
        proof {
            assert(out@ =~= old(out)@ + dec2_str(n as nat));
        }
    } else {
        push_u32_dec(out, n);
    }
}

/// The decimal rendering of `n` as a fresh string.
pub fn u32_to_string(n: u32) -> (r: String)
    ensures
        r@ == dec_str(n as nat),
{
    let mut out = String::new();
    push_u32_dec(&mut out, n);
    proof {
        assert(out@ =~= dec_str(n as nat));
    }
    out
}

/// Index of the first occurrence of `c` in `s`, or -1 when absent.
pub open spec fn first_index_of(s: Seq<char>, c: char) -> int
    decreases s.len(),
{
    if s.len() == 0 {
        -1
    } else if s[0] == c {
        0
    } else {
        let r = first_index_of(s.skip(1), c);
        if r < 0 {
            -1
        } else {
            r + 1
        }
    }
}

/// `first_index_of` finds exactly the first occurrence.
pub proof fn lemma_first_index_of(s: Seq<char>, c: char)
    ensures
        first_index_of(s, c) == -1 ==> forall|i: int| 0 <= i < s.len() ==> s[i] != c,
        first_index_of(s, c) >= 0 ==> {
            let k = first_index_of(s, c);
            &&& k < s.len()
            &&& s[k] == c
            &&& forall|i: int| 0 <= i < k ==> s[i] != c
        },
    decreases s.len(),
{
    if s.len() > 0 && s[0] != c {
        let rest = s.skip(1);
        lemma_first_index_of(rest, c);
        assert(forall|i: int| 0 <= i < rest.len() ==> rest[i] == s[i + 1]);
        let r = first_index_of(rest, c);
        if r < 0 {
            assert forall|i: int| 0 <= i < s.len() implies s[i] != c by {
                if i >= 1 {
                    assert(rest[i - 1] != c);
                }
            }
        } else {
            assert(s[r + 1] == rest[r]);
            assert forall|i: int| 0 <= i < r + 1 implies s[i] != c by {
                if i >= 1 {
                    assert(rest[i - 1] != c);
                }
            }
        }
    }
}

/// `first_index_of(s, c)` is `k` when `c` is at `k` and nowhere before.
pub proof fn lemma_first_index_is(s: Seq<char>, c: char, k: int)
    requires
        0 <= k < s.len(),
        s[k] == c,
        forall|j: int| 0 <= j < k ==> s[j] != c,
    ensures
        first_index_of(s, c) == k,
{
    lemma_first_index_of(s, c);
    let r = first_index_of(s, c);
    if r < 0 {
        assert(s[k] != c);
    } else if r < k {
        assert(s[r] != c);
        assert(s[r] == c);
    } else if r > k {
        assert(s[k] != c);
    }
}

/// Find the first occurrence of `c` in `s`.
pub fn find_char(s: &str, c: char) -> (r: Option<usize>)
    ensures
        match r {
            Some(i) => 0 <= i < s@.len() && first_index_of(s@, c) == i,
            None => first_index_of(s@, c) == -1,
        },
{
    let n = s.unicode_len();
    let mut i: usize = 0;
    while i < n
        invariant
            n == s@.len(),
            0 <= i <= n,
            forall|j: int| 0 <= j < i ==> s@[j] != c,
        decreases n - i,
    {
        if s.get_char(i) == c {
            proof {
                lemma_first_index_is(s@, c, i as int);
            }
            return Some(i);
        }
        i += 1;
    }
    proof {
        lemma_first_index_of(s@, c);
        if first_index_of(s@, c) >= 0 {
            let k = first_index_of(s@, c);
            assert(s@[k] != c);
        }
    }
    None
}

/// Membership in a concatenation is membership in either part.
pub proof fn lemma_concat_contains<A>(a: Seq<A>, b: Seq<A>, x: A)
    ensures
        (a + b).contains(x) <==> (a.contains(x) || b.contains(x)),
{
    if a.contains(x) {
        let i = choose|i: int| 0 <= i < a.len() && a[i] == x;
        assert((a + b)[i] == x);
    }
    if b.contains(x) {
        let i = choose|i: int| 0 <= i < b.len() && b[i] == x;
        assert((a + b)[a.len() + i] == x);
    }
    if (a + b).contains(x) {
        let i = choose|i: int| 0 <= i < (a + b).len() && (a + b)[i] == x;
        if i < a.len() {
            assert(a[i] == x);
        } else {
            assert(b[i - a.len()] == x);
        }
    }
}

/// The pieces of `s` between occurrences of `c`, in order; the empty
/// string splits into one empty piece, as `str::split` does.
pub open spec fn split_char(s: Seq<char>, c: char) -> Seq<Seq<char>>
    decreases s.len(),
    via split_char_decreases
{
    let i = first_index_of(s, c);
    if i < 0 {
        seq![s]
    } else {
        seq![s.take(i)] + split_char(s.skip(i + 1), c)
    }
}

#[via_fn]
proof fn split_char_decreases(s: Seq<char>, c: char) {
    lemma_first_index_of(s, c);
}

/// Split `s` at every occurrence of `c`.
pub fn split_str(s: &str, c: char) -> (r: Vec<String>)
    ensures
        r.deep_view() == split_char(s@, c),
{
    let n = s.unicode_len();
    let mut out: Vec<String> = Vec::new();
    let mut start: usize = 0;
    let mut i: usize = 0;
    proof {
        assert(out.deep_view() =~= Seq::<Seq<char>>::empty());
        assert(s@.skip(0) =~= s@);
        assert(out.deep_view() + split_char(s@, c) =~= split_char(s@, c));
    }
    while i < n
        invariant
            n == s@.len(),
            0 <= start <= i <= n,
            forall|j: int| start <= j < i ==> s@[j] != c,
            split_char(s@, c) == out.deep_view() + split_char(s@.skip(start as int), c),
        decreases n - i,
    {
        if s.get_char(i) == c {
            let piece = s.substring_char(start, i);
            proof {
                let rest = s@.skip(start as int);
                assert(rest[i - start] == s@[i as int]);
                assert(rest[i - start] == c);
                lemma_first_index_of(rest, c);
                let k = first_index_of(rest, c);
                if k < 0 {
                    assert(rest[i - start] != c);
                    assert(false);
                } else if k < i - start {
                    assert(rest[k] == s@[k + start]);
                    assert(s@[k + start] != c);
                    assert(false);
                } else if k > i - start {
                    assert(rest[i - start] != c);
                    assert(false);
                }
                assert(k == i - start);
                assert(rest.take(i - start) =~= s@.subrange(start as int, i as int));
                assert(rest.skip(i - start + 1) =~= s@.skip(i + 1));
            }
            let ghost prev = out.deep_view();
            out.push(piece.to_owned());
            proof {
                assert(out.deep_view() =~= prev.push(s@.skip(start as int).take(i - start)));
            }
            start = i + 1;
        }
        i += 1;
    }
    let piece = s.substring_char(start, n);
    proof {
        let rest = s@.skip(start as int);
        assert(forall|j: int| 0 <= j < rest.len() ==> rest[j] == s@[j + start]);
        lemma_first_index_of(rest, c);
        if first_index_of(rest, c) >= 0 {
            let k = first_index_of(rest, c);
            assert(rest[k] == c);
        }
        assert(first_index_of(rest, c) == -1);
        assert(rest =~= s@.subrange(start as int, n as int));
    }
    let ghost prev = out.deep_view();
    out.push(piece.to_owned());
    proof {
        assert(out.deep_view() =~= prev.push(s@.skip(start as int)));
        assert(out.deep_view() =~= split_char(s@, c));
    }
    out
}

/// ASCII whitespace, the characters a crontab line is split on.
pub open spec fn is_space_char(c: char) -> bool {
    c == ' ' || c == '\t' || c == '\n' || c == '\r' || c == '\u{000B}' || c == '\u{000C}'
}

/// Index of the first whitespace character of `s`, or `s.len()` if none.
pub open spec fn first_space(s: Seq<char>) -> int
    decreases s.len(),
{
    if s.len() == 0 {
        0
    } else if is_space_char(s[0]) {
        0
    } else {
        1 + first_space(s.skip(1))
    }
}

/// `first_space` finds exactly the first whitespace character.
pub proof fn lemma_first_space(s: Seq<char>)
    ensures
        0 <= first_space(s) <= s.len(),
        forall|i: int| 0 <= i < first_space(s) ==> !is_space_char(s[i]),
        first_space(s) < s.len() ==> is_space_char(s[first_space(s)]),
    decreases s.len(),
{
    if s.len() > 0 && !is_space_char(s[0]) {
        let rest = s.skip(1);
        lemma_first_space(rest);
        assert(forall|i: int| 0 <= i < rest.len() ==> rest[i] == s[i + 1]);
        assert forall|i: int| 0 <= i < first_space(s) implies !is_space_char(s[i]) by {
            if i >= 1 {
                assert(!is_space_char(rest[i - 1]));
            }
        }
        if first_space(s) < s.len() {
            assert(is_space_char(rest[first_space(rest)]));
        }
    }
}

/// `first_space(s)` is `k` when the first `k` characters are non-space
/// and position `k` is a space or the end.
pub proof fn lemma_first_space_at(s: Seq<char>, k: int)
    requires
        0 <= k <= s.len(),
        forall|j: int| 0 <= j < k ==> !is_space_char(s[j]),
        k < s.len() ==> is_space_char(s[k]),
    ensures
        first_space(s) == k,
    decreases k,
{
    if k == 0 {
    } else {
        let rest = s.skip(1);
        assert(forall|i: int| 0 <= i < rest.len() ==> rest[i] == s[i + 1]);
        assert forall|j: int| 0 <= j < k - 1 implies !is_space_char(rest[j]) by {
            assert(!is_space_char(s[j + 1]));
        }
        if k - 1 < rest.len() {
            assert(is_space_char(rest[k - 1]));
        }
        lemma_first_space_at(rest, k - 1);
        assert(!is_space_char(s[0]));
    }
}

/// The whitespace-separated tokens of `s`, in order, with runs of
/// whitespace collapsed and no empty tokens.
pub open spec fn tokens_of(s: Seq<char>) -> Seq<Seq<char>>
    decreases s.len(),
    via tokens_of_decreases
{
    if s.len() == 0 {
        Seq::empty()
    } else if is_space_char(s[0]) {
        tokens_of(s.skip(1))
    } else {
        seq![s.take(first_space(s))] + tokens_of(s.skip(first_space(s)))
    }
}

#[via_fn]
proof fn tokens_of_decreases(s: Seq<char>) {
    lemma_first_space(s);
}

/// Split `s` into its whitespace-separated tokens.
pub fn split_spaces(s: &str) -> (r: Vec<String>)
    ensures
        r.deep_view() == tokens_of(s@),
{
    let n = s.unicode_len();
    let mut out: Vec<String> = Vec::new();
    let mut i: usize = 0;
    let mut start: usize = 0;
    let mut in_tok: bool = false;
    proof {
        assert(out.deep_view() =~= Seq::<Seq<char>>::empty());
        assert(s@.skip(0) =~= s@);
        assert(out.deep_view() + tokens_of(s@) =~= tokens_of(s@));
    }
    while i < n
        invariant
            n == s@.len(),
            0 <= i <= n,
            in_tok ==> 0 <= start < i,
            in_tok ==> forall|j: int| start <= j < i ==> !is_space_char(s@[j]),
            !in_tok ==> tokens_of(s@) == out.deep_view() + tokens_of(s@.skip(i as int)),
            in_tok ==> tokens_of(s@) == out.deep_view() + tokens_of(s@.skip(start as int)),
        decreases n - i,
    {
        let c = s.get_char(i);
        let space = c == ' ' || c == '\t' || c == '\n' || c == '\r' || c == '\u{000B}' || c
            == '\u{000C}';
        if space {
            if in_tok {
                let piece = s.substring_char(start, i);
                proof {
                    let rest = s@.skip(start as int);
                    assert(forall|j: int| 0 <= j < rest.len() ==> rest[j] == s@[j + start]);
                    lemma_first_space_at(rest, i - start);
                    assert(rest.take(i - start) =~= s@.subrange(start as int, i as int));
                    assert(rest.skip(i - start) =~= s@.skip(i as int));
                }
                let ghost prev = out.deep_view();
                out.push(piece.to_owned());
                proof {
                    assert(out.deep_view() =~= prev.push(s@.subrange(start as int, i as int)));
                    assert(out.deep_view() + tokens_of(s@.skip(i as int)) =~= tokens_of(s@));
                }
                in_tok = false;
            }
            proof {
                let rest = s@.skip(i as int);
                assert(rest[0] == s@[i as int]);
                assert(rest.skip(1) =~= s@.skip(i + 1));
            }
        } else {
            if !in_tok {
                start = i;
                in_tok = true;
                proof {
                    let rest = s@.skip(i as int);
                    assert(rest[0] == s@[i as int]);
                }
            }
        }
        i += 1;
    }
    if in_tok {
        let piece = s.substring_char(start, n);
        proof {
            let rest = s@.skip(start as int);
            assert(forall|j: int| 0 <= j < rest.len() ==> rest[j] == s@[j + start]);
            lemma_first_space_at(rest, n - start);
            assert(rest.take(n - start) =~= s@.subrange(start as int, n as int));
            assert(rest.skip(n - start) =~= Seq::<char>::empty());
        }
        let ghost prev = out.deep_view();
        out.push(piece.to_owned());
        proof {
            let rest = s@.skip(start as int);
            assert(rest[0] == s@[start as int]);
            assert(!is_space_char(rest[0]));
            assert(tokens_of(rest) =~= seq![rest.take(n - start)] + tokens_of(
                rest.skip(n - start),
            ));
            assert(tokens_of(rest.skip(n - start)) =~= Seq::<Seq<char>>::empty());
            assert(tokens_of(rest) =~= seq![s@.subrange(start as int, n as int)]);
            assert(out.deep_view() =~= prev.push(s@.subrange(start as int, n as int)));
            assert(out.deep_view() =~= prev + tokens_of(rest));
            assert(out.deep_view() =~= tokens_of(s@));
        }
    } else {
        proof {
            assert(s@.skip(n as int) =~= Seq::<char>::empty());
            assert(out.deep_view() =~= tokens_of(s@));
        }
    }
    out
}

/// The tokens rejoined with single spaces between them.
pub open spec fn join_spaces(ts: Seq<Seq<char>>) -> Seq<char>
    decreases ts.len(),
{
    if ts.len() == 0 {
        Seq::empty()
    } else if ts.len() == 1 {
        ts[0]
    } else {
        ts[0] + seq![' '] + join_spaces(ts.skip(1))
    }
}

/// Joining one more token on the right appends a space and the token.
proof fn lemma_join_snoc(ts: Seq<Seq<char>>, k: int)
    requires
        1 <= k < ts.len(),
    ensures
        join_spaces(ts.take(k + 1)) =~= join_spaces(ts.take(k)) + seq![' '] + ts[k],
    decreases k,
{
    let a = ts.take(k + 1);
    let b = ts.take(k);
    if k == 1 {
        assert(a.skip(1) =~= seq![ts[1]]);
        assert(join_spaces(a) =~= ts[0] + seq![' '] + ts[1]);
    } else {
        lemma_join_snoc(ts.skip(1), k - 1);
        assert(ts.skip(1).take(k) =~= a.skip(1));
        assert(ts.skip(1).take(k - 1) =~= b.skip(1));
        assert(ts.skip(1)[k - 1] == ts[k]);
        assert(join_spaces(a) =~= a[0] + seq![' '] + join_spaces(a.skip(1)));
        assert(join_spaces(b) =~= b[0] + seq![' '] + join_spaces(b.skip(1)));
    }
}

/// Join the tokens of `ts` from index `from` on, with single spaces.
pub fn join_from(ts: &Vec<String>, from: usize) -> (r: String)
    requires
        from <= ts@.len(),
    ensures
        r@ == join_spaces(ts.deep_view().skip(from as int)),
{
    let ghost suffix = ts.deep_view().skip(from as int);
    let mut out = String::new();
    if from >= ts.len() {
        proof {
            assert(suffix =~= Seq::<Seq<char>>::empty());
        }
        return out;
    }
    out.append(ts[from].as_str());
    proof {
        assert(suffix.take(1) =~= seq![suffix[0]]);
        assert(out@ =~= join_spaces(suffix.take(1)));
    }
    let mut k: usize = from + 1;
    while k < ts.len()
        invariant
            from < k <= ts@.len(),
            suffix == ts.deep_view().skip(from as int),
            out@ == join_spaces(suffix.take(k - from)),
        decreases ts@.len() - k,
    {
        proof {
            lemma_join_snoc(suffix, k - from);
            assert(suffix[k - from] == ts.deep_view()[k as int]);
        }
        out.append(" ");
        out.append(ts[k].as_str());
        proof {
            reveal_strlit(" ");
            assert(" "@ =~= seq![' ']);
            assert(out@ =~= join_spaces(suffix.take(k + 1 - from)));
        }
        k += 1;
    }
    proof {
        assert(suffix.take(ts@.len() - from) =~= suffix);
    }
    out
}

} // verus!
