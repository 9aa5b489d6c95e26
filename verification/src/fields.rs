//! The field expander: turns one raw cron field (wildcard, single value,
//! comma list, inclusive range, step, or named weekday tokens) into the
//! concrete set of values it denotes within its domain.

use vstd::prelude::*;

use crate::strutil::{
    all_digits, find_char, first_index_of, lemma_concat_contains, parse_u8, parse_u8_spec,
    seq_matches_ci, split_char, split_str, str_eq, str_matches_ci,
};

verus! {

/// One of the five cron fields, fixing the range of valid values and,
/// for weekdays, the name table.
#[derive(Clone, Copy, PartialEq, Eq, Structural, Debug)]
pub enum FieldDomain {
    Minute,
    Hour,
    DayOfMonth,
    Month,
    DayOfWeek,
}

/// Smallest valid value of the domain.
pub open spec fn domain_min_spec(d: FieldDomain) -> u8 {
    match d {
        FieldDomain::Minute => 0,
        FieldDomain::Hour => 0,
        FieldDomain::DayOfMonth => 1,
        FieldDomain::Month => 1,
        FieldDomain::DayOfWeek => 0,
    }
}

/// Largest valid value of the domain.
pub open spec fn domain_max_spec(d: FieldDomain) -> u8 {
    match d {
        FieldDomain::Minute => 59,
        FieldDomain::Hour => 23,
        FieldDomain::DayOfMonth => 31,
        FieldDomain::Month => 12,
        FieldDomain::DayOfWeek => 6,
    }
}

/// Smallest valid value of the domain.
pub fn domain_min(d: FieldDomain) -> (r: u8)
    ensures
        r == domain_min_spec(d),
{
    match d {
        FieldDomain::Minute => 0,
        FieldDomain::Hour => 0,
        FieldDomain::DayOfMonth => 1,
        FieldDomain::Month => 1,
        FieldDomain::DayOfWeek => 0,
    }
}

/// Largest valid value of the domain.
pub fn domain_max(d: FieldDomain) -> (r: u8)
    ensures
        r == domain_max_spec(d),
{
    match d {
        FieldDomain::Minute => 59,
        FieldDomain::Hour => 23,
        FieldDomain::DayOfMonth => 31,
        FieldDomain::Month => 12,
        FieldDomain::DayOfWeek => 6,
    }
}

/// The weekday a token names: a three-letter abbreviation in any case,
/// or a single digit 0 (Sunday) through 6 (Saturday).
pub open spec fn dow_value_of(t: Seq<char>) -> Option<u8> {
    if seq_matches_ci(t, "sun"@) || t == "0"@ {
        Some(0u8)
    } else if seq_matches_ci(t, "mon"@) || t == "1"@ {
        Some(1u8)
    } else if seq_matches_ci(t, "tue"@) || t == "2"@ {
        Some(2u8)
    } else if seq_matches_ci(t, "wed"@) || t == "3"@ {
        Some(3u8)
    } else if seq_matches_ci(t, "thu"@) || t == "4"@ {
        Some(4u8)
    } else if seq_matches_ci(t, "fri"@) || t == "5"@ {
        Some(5u8)
    } else if seq_matches_ci(t, "sat"@) || t == "6"@ {
        Some(6u8)
    } else {
        None
    }
}

/// Parse one weekday token ("Mon", "mon", "1", ...) to 0..=6.
pub fn parse_dow_value(tok: &str) -> (r: Option<u8>)
    ensures
        r == dow_value_of(tok@),
        r matches Some(v) ==> v <= 6,
{
    if str_matches_ci(tok, "sun") || str_eq(tok, "0") {
        Some(0)
    } else if str_matches_ci(tok, "mon") || str_eq(tok, "1") {
        Some(1)
    } else if str_matches_ci(tok, "tue") || str_eq(tok, "2") {
        Some(2)
    } else if str_matches_ci(tok, "wed") || str_eq(tok, "3") {
        Some(3)
    } else if str_matches_ci(tok, "thu") || str_eq(tok, "4") {
        Some(4)
    } else if str_matches_ci(tok, "fri") || str_eq(tok, "5") {
        Some(5)
    } else if str_matches_ci(tok, "sat") || str_eq(tok, "6") {
        Some(6)
    } else {
        None
    }
}

/// The weekdays from `s` to `e` walking forward and wrapping at
/// Saturday, both ends included; `Fri-Mon` gives 5, 6, 0, 1.
pub open spec fn dow_range_seq(s: u8, e: u8) -> Seq<u8>
    decreases (e as int - s as int + 7) % 7,
    via dow_range_seq_decreases
{
    if s > 6 || e > 6 {
        Seq::empty()
    } else if s == e {
        seq![s]
    } else {
        seq![s] + dow_range_seq(((s as int + 1) % 7) as u8, e)
    }
}

#[via_fn]
proof fn dow_range_seq_decreases(s: u8, e: u8) {
    if s <= 6 && e <= 6 && s != e {
        let s2 = ((s as int + 1) % 7) as u8;
        assert((e as int - s2 as int + 7) % 7 < (e as int - s as int + 7) % 7);
    }
}

/// What one comma-separated term of a weekday field denotes.
pub open spec fn dow_term_values(t: Seq<char>) -> Seq<u8> {
    let i = first_index_of(t, '-');
    if i >= 0 {
        match (dow_value_of(t.take(i)), dow_value_of(t.skip(i + 1))) {
            (Some(s), Some(e)) => dow_range_seq(s, e),
            _ => Seq::empty(),
        }
    } else {
        match dow_value_of(t) {
            Some(v) => seq![v],
            None => Seq::empty(),
        }
    }
}

/// Append the weekdays one term denotes to `out`.
fn push_dow_term(out: &mut Vec<u8>, t: &str)
    ensures
        final(out)@ == old(out)@ + dow_term_values(t@),
        forall|j: int|
            old(out)@.len() <= j < final(out)@.len() ==> #[trigger] final(out)@[j] <= 6,
{
    let ghost base = old(out)@;
    match find_char(t, '-') {
        Some(i) => {
            let n = t.unicode_len();
            let a = t.substring_char(0, i);
            let b = t.substring_char(i + 1, n);
            proof {
                assert(a@ =~= t@.take(i as int));
                assert(b@ =~= t@.skip(i + 1));
            }
            let sv = parse_dow_value(a);
            let ev = parse_dow_value(b);
            match (sv, ev) {
                (Some(s), Some(e)) => {
                    let mut cur = s;
                    out.push(cur);
                    proof {
                        assert(out@ =~= base + seq![s]);
                        assert(out@.skip(base.len() as int) =~= seq![s]);
                        assert(out@.take(base.len() as int) =~= base);
                    }
                    while cur != e
                        invariant
                            cur <= 6,
                            e <= 6,
                            s <= 6,
                            base.len() < out@.len(),
                            dow_range_seq(s, e) == out@.skip(base.len() as int) + (if cur == e {
                                Seq::<u8>::empty()
                            } else {
                                dow_range_seq(((cur as int + 1) % 7) as u8, e)
                            }),
                            out@.take(base.len() as int) == base,
                            forall|j: int|
                                base.len() <= j < out@.len() ==> #[trigger] out@[j] <= 6,
                        decreases (e as int - cur as int + 7) % 7,
                    {
                        let next = (cur + 1) % 7;
                        let ghost prev = out@;
                        out.push(next);
                        proof {
                            assert(out@.skip(base.len() as int) =~= prev.skip(base.len() as int)
                                + seq![next]);
                            assert(out@.take(base.len() as int) =~= base);
                            if next != e {
                                assert(dow_range_seq(next, e) == seq![next] + dow_range_seq(
                                    ((next as int + 1) % 7) as u8,
                                    e,
                                ));
                            }
                            assert(prev.skip(base.len() as int) + dow_range_seq(next, e)
                                =~= out@.skip(base.len() as int) + (if next == e {
                                Seq::<u8>::empty()
                            } else {
                                dow_range_seq(((next as int + 1) % 7) as u8, e)
                            }));
                        }
                        cur = next;
                    }
                    proof {
                        assert(out@ =~= out@.take(base.len() as int) + out@.skip(
                            base.len() as int,
                        ));
                        assert(out@.skip(base.len() as int) + Seq::<u8>::empty() =~= out@.skip(
                            base.len() as int,
                        ));
                        assert(out@ =~= base + dow_term_values(t@));
                    }
                },
                _ => {
                    proof {
                        assert(out@ =~= base + dow_term_values(t@));
                    }
                },
            }
        },
        None => {
            match parse_dow_value(t) {
                Some(v) => {
                    out.push(v);
                    proof {
                        assert(out@ =~= base + dow_term_values(t@));
                    }
                },
                None => {
                    proof {
                        assert(out@ =~= base + dow_term_values(t@));
                    }
                },
            }
        },
    }
}

/// The term is a step expression `*/n`.
pub open spec fn has_step_prefix(t: Seq<char>) -> bool {
    t.len() >= 2 && t[0] == '*' && t[1] == '/'
}

/// The values of the inclusive range `a-b`, restricted to `[lo, hi]`,
/// in ascending order.
pub open spec fn clamped_range(a: u8, b: u8, lo: u8, hi: u8) -> Seq<u8> {
    let start = if a > lo {
        a as int
    } else {
        lo as int
    };
    let end = if b < hi {
        b as int
    } else {
        hi as int
    };
    if start > end {
        Seq::empty()
    } else {
        Seq::new((end - start + 1) as nat, |k: int| (start + k) as u8)
    }
}

/// Every `n`-th value from `lo` up to and including `hi`.
pub open spec fn step_seq(lo: int, hi: int, n: int) -> Seq<u8>
    decreases (if lo <= hi {
        hi + 1 - lo
    } else {
        0
    }),
{
    if n < 1 || lo > hi {
        Seq::empty()
    } else {
        seq![lo as u8] + step_seq(lo + n, hi, n)
    }
}

/// What one comma-separated term of a numeric field denotes within
/// `[lo, hi]`: a parsed range, else a step, else a single value; a
/// term that parses as none of these denotes nothing.
pub open spec fn numeric_term_values(t: Seq<char>, lo: u8, hi: u8) -> Seq<u8> {
    let i = first_index_of(t, '-');
    let endpoints = if i >= 0 {
        match (parse_u8_spec(t.take(i)), parse_u8_spec(t.skip(i + 1))) {
            (Some(a), Some(b)) => Some((a, b)),
            _ => None,
        }
    } else {
        None
    };
    match endpoints {
        Some((a, b)) => clamped_range(a, b, lo, hi),
        None => {
            let step = if has_step_prefix(t) {
                parse_u8_spec(t.skip(2))
            } else {
                None
            };
            match step {
                Some(n) => if n >= 1 {
                    step_seq(lo as int, hi as int, n as int)
                } else {
                    Seq::empty()
                },
                None => match parse_u8_spec(t) {
                    Some(v) => if lo <= v && v <= hi {
                        seq![v]
                    } else {
                        Seq::empty()
                    },
                    None => Seq::empty(),
                },
            }
        },
    }
}

/// What one term denotes in domain `d`.
pub open spec fn term_values(t: Seq<char>, d: FieldDomain) -> Seq<u8> {
    if d is DayOfWeek {
        dow_term_values(t)
    } else {
        numeric_term_values(t, domain_min_spec(d), domain_max_spec(d))
    }
}

/// The concatenation of what each term denotes, in field order.
pub open spec fn terms_values(ts: Seq<Seq<char>>, d: FieldDomain) -> Seq<u8>
    decreases ts.len(),
{
    if ts.len() == 0 {
        Seq::empty()
    } else {
        terms_values(ts.drop_last(), d) + term_values(ts.last(), d)
    }
}

/// Everything a whole field denotes: its comma-separated terms, in
/// order, each expanded in domain `d`.
pub open spec fn field_values(s: Seq<char>, d: FieldDomain) -> Seq<u8> {
    terms_values(split_char(s, ','), d)
}

/// Parse a day-of-week field like "Mon", "1", "Fri-Mon" or "Tue,Thu"
/// into the weekdays it denotes, in field order, duplicates kept.
pub fn parse_dow_field(field: &str) -> (r: Vec<u8>)
    ensures
        r@ == field_values(field@, FieldDomain::DayOfWeek),
        forall|j: int| 0 <= j < r@.len() ==> #[trigger] r@[j] <= 6,
{
    let terms = split_str(field, ',');
    let ghost ts = split_char(field@, ',');
    let mut out: Vec<u8> = Vec::new();
    let mut k: usize = 0;
    proof {
        assert(ts.take(0) =~= Seq::<Seq<char>>::empty());
        assert(out@ =~= terms_values(ts.take(0), FieldDomain::DayOfWeek));
    }
    while k < terms.len()
        invariant
            terms.deep_view() == ts,
            0 <= k <= terms@.len() == ts.len(),
            out@ == terms_values(ts.take(k as int), FieldDomain::DayOfWeek),
            forall|j: int| 0 <= j < out@.len() ==> #[trigger] out@[j] <= 6,
        decreases terms@.len() - k,
    {
        proof {
            assert(terms.deep_view()[k as int] == terms@[k as int]@);
        }
        push_dow_term(&mut out, terms[k].as_str());
        proof {
            assert(ts.take(k + 1).drop_last() =~= ts.take(k as int));
            assert(ts.take(k + 1).last() == ts[k as int]);
        }
        k += 1;
    }
    proof {
        assert(ts.take(ts.len() as int) =~= ts);
    }
    out
}

/// Mark in `present` every value one numeric term denotes.
fn mark_numeric_term(present: &mut Vec<bool>, t: &str, lo: u8, hi: u8)
    requires
        lo <= hi,
        hi < 255,
        old(present)@.len() == hi as int + 1,
    ensures
        final(present)@.len() == old(present)@.len(),
        forall|u: int|
            0 <= u <= hi ==> #[trigger] final(present)@[u] == (old(present)@[u]
                || numeric_term_values(t@, lo, hi).contains(u as u8)),
{
    let ghost orig = old(present)@;
    let ghost tv = numeric_term_values(t@, lo, hi);
    let n = t.unicode_len();
    let found = find_char(t, '-');
    let mut range_done = false;
    if let Some(i) = found {
        let a = t.substring_char(0, i);
        let b = t.substring_char(i + 1, n);
        proof {
            assert(a@ =~= t@.take(i as int));
            assert(b@ =~= t@.skip(i as int + 1));
        }
        let av = parse_u8(a);
        let bv = parse_u8(b);
        if av.is_some() && bv.is_some() {
            let a8 = av.unwrap();
            let b8 = bv.unwrap();
            proof {
                assert(tv == clamped_range(a8, b8, lo, hi));
            }
            let start = if a8 > lo {
                a8
            } else {
                lo
            };
            let end = if b8 < hi {
                b8
            } else {
                hi
            };
            let mut v = start;
            while v <= end
                invariant
                    lo <= start,
                    end <= hi < 255,
                    start <= v <= end + 1 || v == start,
                    present@.len() == hi as int + 1,
                    orig.len() == hi as int + 1,
                    forall|u: int|
                        0 <= u <= hi ==> #[trigger] present@[u] == (orig[u] || (start <= u < v)),
                decreases end + 1 - v,
            {
                present[v as usize] = true;
                v = v + 1;
            }
            proof {
                assert forall|u: int| 0 <= u <= hi implies present@[u] == (orig[u] || tv.contains(
                    u as u8,
                )) by {
                    if start <= end {
                        if start <= u <= end {
                            assert(tv[u - start] == u as u8);
                            assert(tv.contains(u as u8));
                        }
                        if tv.contains(u as u8) {
                            let k = choose|k: int| 0 <= k < tv.len() && tv[k] == u as u8;
                            assert(tv[k] == (start + k) as u8);
                        }
                    }
                }
            }
            range_done = true;
        }
    }
    if !range_done {
        let is_step = n >= 2 && t.get_char(0) == '*' && t.get_char(1) == '/';
        let mut step_done = false;
        if is_step {
            let sub = t.substring_char(2, n);
            proof {
                assert(sub@ =~= t@.skip(2));
            }
            if let Some(st) = parse_u8(sub) {
                if st >= 1 {
                    proof {
                        assert(tv == step_seq(lo as int, hi as int, st as int));
                    }
                    let mut v16: u16 = lo as u16;
                    let ghost mut done = Seq::<u8>::empty();
                    proof {
                        assert(done + step_seq(lo as int, hi as int, st as int) =~= step_seq(
                            lo as int,
                            hi as int,
                            st as int,
                        ));
                    }
                    while v16 <= hi as u16
                        invariant
                            1 <= st,
                            lo <= hi < 255,
                            lo as int <= v16 as int,
                            present@.len() == hi as int + 1,
                            orig.len() == hi as int + 1,
                            tv == step_seq(lo as int, hi as int, st as int),
                            tv == done + step_seq(v16 as int, hi as int, st as int),
                            forall|u: int|
                                0 <= u <= hi ==> #[trigger] present@[u] == (orig[u]
                                    || done.contains(u as u8)),
                        decreases (if v16 as int <= hi as int + 1 {
                            hi as int + 1 - v16 as int
                        } else {
                            0
                        }),
                    {
                        let v = v16 as u8;
                        let ghost pre = present@;
                        present[v as usize] = true;
                        proof {
                            assert(present@ == pre.update(v as int, true));
                            assert(step_seq(v16 as int, hi as int, st as int) == seq![v]
                                + step_seq(v16 as int + st as int, hi as int, st as int));
                            assert(done + (seq![v] + step_seq(
                                v16 as int + st as int,
                                hi as int,
                                st as int,
                            )) =~= done.push(v) + step_seq(
                                v16 as int + st as int,
                                hi as int,
                                st as int,
                            ));
                            assert forall|u: int| 0 <= u <= hi implies (present@[u] == (orig[u]
                                || done.push(v).contains(u as u8))) by {
                                assert(done.push(v) =~= done + seq![v]);
                                lemma_concat_contains(done, seq![v], u as u8);
                                assert(seq![v][0] == v);
                                if u == v as int {
                                    assert(seq![v].contains(u as u8));
                                } else {
                                    assert(present@[u] == pre[u]);
                                    assert(u as u8 != v);
                                }
                            }
                        }
                        proof {
                            done = done.push(v);
                        }
                        v16 = v16 + st as u16;
                    }
                    proof {
                        assert(step_seq(v16 as int, hi as int, st as int) =~= Seq::<u8>::empty());
                        assert(tv =~= done + Seq::<u8>::empty());
                        assert(tv =~= done);
                    }
                    step_done = true;
                } else {
                    proof {
                        assert(tv =~= Seq::<u8>::empty());
                    }
                    step_done = true;
                }
            }
        }
        if !step_done {
            let sv = parse_u8(t);
            if let Some(v) = sv {
                if lo <= v && v <= hi {
                    proof {
                        assert(tv =~= seq![v]);
                    }
                    present[v as usize] = true;
                    proof {
                        assert forall|u: int| 0 <= u <= hi implies present@[u] == (orig[u]
                            || tv.contains(u as u8)) by {
                            if tv.contains(u as u8) {
                                let k = choose|k: int| 0 <= k < tv.len() && tv[k] == u as u8;
                                assert(tv[k] == v);
                            }
                            if u == v {
                                assert(tv[0] == u as u8);
                            }
                        }
                    }
                } else {
                    proof {
                        assert(tv =~= Seq::<u8>::empty());
                    }
                }
            } else {
                proof {
                    assert(tv =~= Seq::<u8>::empty());
                }
            }
        }
    }
}

/// The members of `field_values(s, d)` that lie in `[v, max]`, listed
/// once each in ascending order.
pub open spec fn members_from(s: Seq<char>, d: FieldDomain, v: int) -> Seq<u8>
    decreases domain_max_spec(d) + 1 - v,
{
    if v < 0 || v > domain_max_spec(d) {
        Seq::empty()
    } else if field_values(s, d).contains(v as u8) {
        seq![v as u8] + members_from(s, d, v + 1)
    } else {
        members_from(s, d, v + 1)
    }
}

/// The distinct values a numeric field denotes, in ascending order:
/// what sorting and deduplicating `field_values` yields.
pub open spec fn ascending_values(s: Seq<char>, d: FieldDomain) -> Seq<u8> {
    members_from(s, d, domain_min_spec(d) as int)
}

/// `members_from` lists values of `[v, max]` strictly ascending.
pub proof fn lemma_members_from_props(s: Seq<char>, d: FieldDomain, v: int)
    requires
        v >= 0,
    ensures
        forall|j: int|
            0 <= j < members_from(s, d, v).len() ==> v <= #[trigger] members_from(s, d, v)[j]
                <= domain_max_spec(d),
        forall|j: int, k: int|
            0 <= j < k < members_from(s, d, v).len() ==> members_from(s, d, v)[j] < members_from(
                s,
                d,
                v,
            )[k],
        forall|x: u8|
            members_from(s, d, v).contains(x) <==> (v <= x <= domain_max_spec(d) && field_values(
                s,
                d,
            ).contains(x)),
    decreases domain_max_spec(d) + 1 - v,
{
    if v < 0 || v > domain_max_spec(d) {
    } else {
        lemma_members_from_props(s, d, v + 1);
        let m = members_from(s, d, v);
        let rest = members_from(s, d, v + 1);
        if field_values(s, d).contains(v as u8) {
            assert(m == seq![v as u8] + rest);
            assert(forall|j: int| 0 <= j < rest.len() ==> m[j + 1] == rest[j]);
            assert(m[0] == v as u8);
            assert forall|x: u8| m.contains(x) <==> (v <= x <= domain_max_spec(d)
                && field_values(s, d).contains(x)) by {
                lemma_concat_contains(seq![v as u8], rest, x);
                assert(seq![v as u8][0] == v as u8);
                if x == v as u8 {
                    assert(seq![v as u8].contains(x));
                }
            }
        } else {
            assert(m == rest);
            assert forall|x: u8| m.contains(x) <==> (v <= x <= domain_max_spec(d)
                && field_values(s, d).contains(x)) by {
                if x == v as u8 {
                    assert(!field_values(s, d).contains(x));
                }
            }
        }
    }
}

/// Expand a numeric field to its distinct values in ascending order.
fn collect_numeric(field: &str, d: FieldDomain) -> (r: Vec<u8>)
    requires
        !(d is DayOfWeek),
    ensures
        r@ == ascending_values(field@, d),
        forall|j: int|
            0 <= j < r@.len() ==> domain_min_spec(d) <= #[trigger] r@[j] <= domain_max_spec(d),
        forall|j: int, k: int| 0 <= j < k < r@.len() ==> r@[j] < r@[k],
{
    let lo = domain_min(d);
    let hi = domain_max(d);
    let ghost ts = split_char(field@, ',');
    let mut present: Vec<bool> = Vec::new();
    let mut p: usize = 0;
    while p < hi as usize + 1
        invariant
            p == present@.len(),
            p <= hi as usize + 1,
            forall|u: int| 0 <= u < p ==> !(#[trigger] present@[u]),
        decreases hi as int + 1 - p,
    {
        present.push(false);
        p += 1;
    }
    let terms = split_str(field, ',');
    let mut k: usize = 0;
    proof {
        assert(ts.take(0) =~= Seq::<Seq<char>>::empty());
    }
    while k < terms.len()
        invariant
            terms.deep_view() == ts,
            0 <= k <= terms@.len() == ts.len(),
            lo == domain_min_spec(d),
            hi == domain_max_spec(d),
            lo <= hi < 255,
            !(d is DayOfWeek),
            present@.len() == hi as int + 1,
            forall|u: int|
                0 <= u <= hi ==> #[trigger] present@[u] == terms_values(
                    ts.take(k as int),
                    d,
                ).contains(u as u8),
        decreases terms@.len() - k,
    {
        proof {
            assert(terms.deep_view()[k as int] == terms@[k as int]@);
        }
        let ghost before = present@;
        mark_numeric_term(&mut present, terms[k].as_str(), lo, hi);
        proof {
            assert(ts.take(k + 1).drop_last() =~= ts.take(k as int));
            assert(ts.take(k + 1).last() == ts[k as int]);
            assert forall|u: int| 0 <= u <= hi implies #[trigger] present@[u] == terms_values(
                ts.take(k + 1),
                d,
            ).contains(u as u8) by {
                lemma_concat_contains(
                    terms_values(ts.take(k as int), d),
                    term_values(ts[k as int], d),
                    u as u8,
                );
            }
        }
        k += 1;
    }
    proof {
        assert(ts.take(ts.len() as int) =~= ts);
    }
    let mut out: Vec<u8> = Vec::new();
    let mut v: usize = lo as usize;
    proof {
        assert(out@ + members_from(field@, d, lo as int) =~= members_from(field@, d, lo as int));
    }
    while v <= hi as usize
        invariant
            lo == domain_min_spec(d),
            hi == domain_max_spec(d),
            lo <= hi < 255,
            lo as int <= v <= hi as int + 1,
            present@.len() == hi as int + 1,
            forall|u: int|
                0 <= u <= hi ==> #[trigger] present@[u] == field_values(field@, d).contains(
                    u as u8,
                ),
            members_from(field@, d, lo as int) == out@ + members_from(field@, d, v as int),
            forall|j: int| 0 <= j < out@.len() ==> lo <= #[trigger] out@[j] <= hi,
            forall|j: int| 0 <= j < out@.len() ==> #[trigger] out@[j] < v,
            forall|j: int, r: int| 0 <= j < r < out@.len() ==> out@[j] < out@[r],
        decreases hi as int + 1 - v,
    {
        let ghost prev = out@;
        if present[v] {
            out.push(v as u8);
            proof {
                assert(members_from(field@, d, v as int) == seq![v as u8] + members_from(
                    field@,
                    d,
                    v as int + 1,
                ));
                assert(prev + (seq![v as u8] + members_from(field@, d, v as int + 1)) =~= out@
                    + members_from(field@, d, v as int + 1));
            }
        } else {
            proof {
                assert(members_from(field@, d, v as int) == members_from(field@, d, v as int + 1));
            }
        }
        v += 1;
    }
    proof {
        assert(members_from(field@, d, hi as int + 1) =~= Seq::<u8>::empty());
        assert(out@ + Seq::<u8>::empty() =~= out@);
    }
    out
}

/// Break an hour field like "0", "0-5", "*/2" or "1,2,3" into the
/// distinct hours 0..=23 it denotes, in ascending order.
pub fn parse_hour_field(field: &str) -> (r: Vec<u8>)
    ensures
        r@ == ascending_values(field@, FieldDomain::Hour),
        forall|j: int| 0 <= j < r@.len() ==> #[trigger] r@[j] <= 23,
        forall|j: int, k: int| 0 <= j < k < r@.len() ==> r@[j] < r@[k],
{
    collect_numeric(field, FieldDomain::Hour)
}

/// A field expanded to what it denotes: the distinguished wildcard
/// marker for `*`, else the concrete values.
pub enum ExpandedField {
    Any,
    Values(Vec<u8>),
}

/// Expand one raw field in its domain. The whole field `*` becomes the
/// wildcard marker `Any`; anything else becomes the concrete values it
/// denotes: in field order for day-of-week (so ranges may wrap), and
/// ascending without duplicates for the numeric domains.
pub fn expand(field: &str, domain: FieldDomain) -> (r: ExpandedField)
    ensures
        match r {
            ExpandedField::Any => field@ == "*"@,
            ExpandedField::Values(v) => field@ != "*"@ && v@ == (if domain is DayOfWeek {
                field_values(field@, domain)
            } else {
                ascending_values(field@, domain)
            }),
        },
{
    if str_eq(field, "*") {
        ExpandedField::Any
    } else if let FieldDomain::DayOfWeek = domain {
        ExpandedField::Values(parse_dow_field(field))
    } else {
        ExpandedField::Values(collect_numeric(field, domain))
    }
}

/// In every domain the whole-field wildcard routes through the
/// dedicated `Any` marker (see `expand`), never the concrete-value
/// path: the concrete expansion of "*" is empty.
pub proof fn lemma_wildcard_field_empty(d: FieldDomain)
    ensures
        field_values("*"@, d) =~= Seq::<u8>::empty(),
        ascending_values("*"@, d) =~= Seq::<u8>::empty(),
{
    reveal_strlit("*");
    let s = "*"@;
    assert(s.len() == 1 && s[0] == '*');
    assert(s.skip(1) =~= Seq::<char>::empty());
    assert(first_index_of(s.skip(1), ',') == -1);
    assert(first_index_of(s, ',') == -1);
    assert(split_char(s, ',') == seq![s]);
    assert(seq![s].drop_last() =~= Seq::<Seq<char>>::empty());
    assert(seq![s].last() == s);
    assert(first_index_of(s.skip(1), '-') == -1);
    assert(first_index_of(s, '-') == -1);
    if d is DayOfWeek {
        reveal_strlit("sun");
        reveal_strlit("mon");
        reveal_strlit("tue");
        reveal_strlit("wed");
        reveal_strlit("thu");
        reveal_strlit("fri");
        reveal_strlit("sat");
        reveal_strlit("0");
        reveal_strlit("1");
        reveal_strlit("2");
        reveal_strlit("3");
        reveal_strlit("4");
        reveal_strlit("5");
        reveal_strlit("6");
        assert(dow_value_of(s) is None);
        assert(dow_term_values(s) =~= Seq::<u8>::empty());
    } else {
        assert(!has_step_prefix(s));
        assert(!all_digits(s));
        assert(parse_u8_spec(s) is None);
        assert(numeric_term_values(s, domain_min_spec(d), domain_max_spec(d)) =~= Seq::<
            u8,
        >::empty());
    }
    assert(term_values(s, d) =~= Seq::<u8>::empty());
    assert(terms_values(seq![s], d) =~= terms_values(Seq::<Seq<char>>::empty(), d) + term_values(
        s,
        d,
    ));
    assert(terms_values(seq![s], d) =~= Seq::<u8>::empty());
    assert(field_values(s, d) =~= Seq::<u8>::empty());
    lemma_members_from_props(s, d, domain_min_spec(d) as int);
    let m = ascending_values(s, d);
    if m.len() > 0 {
        assert(m.contains(m[0]));
        assert(field_values(s, d).contains(m[0]));
    }
}

} // verus!
