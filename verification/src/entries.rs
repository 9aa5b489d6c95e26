//! Crontab entries: splitting a raw line into its five schedule fields
//! plus command, expanding the named shorthand schedules, and counting
//! histogram buckets over a list of lines.

use vstd::prelude::*;

use crate::fields::{ascending_values, field_values, parse_dow_field, parse_hour_field, FieldDomain};
use crate::strutil::{
    dec_str, join_from, join_spaces, parse_u8, parse_u8_spec, seq_matches_ci, split_spaces,
    str_eq, str_matches_ci, tokens_of, u32_to_string,
};

verus! {

/// One parsed crontab entry: the five raw schedule fields and the
/// command, the latter rejoined with single spaces.
pub struct CronEntry {
    pub minute: String,
    pub hour: String,
    pub day_of_month: String,
    pub month: String,
    pub day_of_week: String,
    pub command: String,
}

/// What a raw line denotes: its first five whitespace tokens and the
/// rest rejoined as the command, or nothing when fewer than six
/// tokens are present.
pub open spec fn entry_of_line(l: Seq<char>) -> Option<
    (Seq<char>, Seq<char>, Seq<char>, Seq<char>, Seq<char>, Seq<char>),
> {
    let ts = tokens_of(l);
    if ts.len() >= 6 {
        Some((ts[0], ts[1], ts[2], ts[3], ts[4], join_spaces(ts.skip(5))))
    } else {
        None
    }
}

/// Split one raw line into an entry; lines with fewer than six
/// whitespace tokens (no command after the five fields) are rejected.
pub fn parse_entry(line: &str) -> (r: Option<CronEntry>)
    ensures
        match r {
            Some(e) => entry_of_line(line@) == Some(
                (e.minute@, e.hour@, e.day_of_month@, e.month@, e.day_of_week@, e.command@),
            ),
            None => entry_of_line(line@) is None,
        },
{
    let toks = split_spaces(line);
    if toks.len() < 6 {
        return None;
    }
    proof {
        assert(toks.deep_view()[0] == toks@[0]@);
        assert(toks.deep_view()[1] == toks@[1]@);
        assert(toks.deep_view()[2] == toks@[2]@);
        assert(toks.deep_view()[3] == toks@[3]@);
        assert(toks.deep_view()[4] == toks@[4]@);
    }
    let command = join_from(&toks, 5);
    Some(
        CronEntry {
            minute: toks[0].clone(),
            hour: toks[1].clone(),
            day_of_month: toks[2].clone(),
            month: toks[3].clone(),
            day_of_week: toks[4].clone(),
            command,
        },
    )
}

/// The five-field schedule a named shorthand stands for; `@reboot`
/// and unknown words stand for none.
pub open spec fn special_replacement(t: Seq<char>) -> Option<Seq<char>> {
    if t == "@hourly"@ {
        Some("0 * * * *"@)
    } else if t == "@daily"@ {
        Some("0 0 * * *"@)
    } else if t == "@weekly"@ {
        Some("0 0 * * 0"@)
    } else if t == "@monthly"@ {
        Some("0 0 1 * *"@)
    } else if t == "@yearly"@ || t == "@annually"@ {
        Some("0 0 1 1 *"@)
    } else {
        None
    }
}

/// What normalizing a shorthand line yields: the five-field schedule,
/// a space, and the rest of the line rejoined.
pub open spec fn normalize_spec(l: Seq<char>) -> Option<Seq<char>> {
    let ts = tokens_of(l);
    if ts.len() == 0 {
        None
    } else {
        match special_replacement(ts[0]) {
            Some(c) => Some(c + " "@ + join_spaces(ts.skip(1))),
            None => None,
        }
    }
}

/// Normalize "@hourly", "@daily", etc., into five-field cron syntax;
/// "@reboot" and ordinary lines yield nothing.
pub fn normalize_special_entry(line: &str) -> (r: Option<String>)
    ensures
        match r {
            Some(s) => normalize_spec(line@) == Some(s@),
            None => normalize_spec(line@) is None,
        },
{
    let toks = split_spaces(line);
    if toks.len() == 0 {
        return None;
    }
    proof {
        assert(toks.deep_view()[0] == toks@[0]@);
    }
    let first = toks[0].as_str();
    let cron: &str = if str_eq(first, "@hourly") {
        "0 * * * *"
    } else if str_eq(first, "@daily") {
        "0 0 * * *"
    } else if str_eq(first, "@weekly") {
        "0 0 * * 0"
    } else if str_eq(first, "@monthly") {
        "0 0 1 * *"
    } else if str_eq(first, "@yearly") || str_eq(first, "@annually") {
        "0 0 1 1 *"
    } else {
        return None;
    };
    let rest = join_from(&toks, 1);
    let mut out = cron.to_owned();
    out.append(" ");
    out.append(rest.as_str());
    Some(out)
}

/// Sum of a per-line weight over a list of lines.
pub open spec fn count_lines(lines: Seq<Seq<char>>, w: spec_fn(Seq<char>) -> nat) -> nat
    decreases lines.len(),
{
    if lines.len() == 0 {
        0
    } else {
        count_lines(lines.drop_last(), w) + w(lines.last())
    }
}

/// A sum of weights that never exceed one is at most the line count.
pub proof fn lemma_count_lines_le(lines: Seq<Seq<char>>, w: spec_fn(Seq<char>) -> nat)
    requires
        forall|l: Seq<char>| #[trigger] w(l) <= 1,
    ensures
        count_lines(lines, w) <= lines.len(),
    decreases lines.len(),
{
    if lines.len() > 0 {
        lemma_count_lines_le(lines.drop_last(), w);
    }
}

/// Weight of one line in the hourly histogram's wildcard bucket.
pub open spec fn line_counts_hour_wild(l: Seq<char>) -> nat {
    let ts = tokens_of(l);
    if ts.len() >= 6 && ts[1] == "*"@ {
        1
    } else {
        0
    }
}

/// Weight of one line in the hourly histogram's bucket for hour `h`.
pub open spec fn line_counts_hour(l: Seq<char>, h: u8) -> nat {
    let ts = tokens_of(l);
    if ts.len() >= 6 && ts[1] != "*"@ && ascending_values(ts[1], FieldDomain::Hour).contains(h) {
        1
    } else {
        0
    }
}

/// Jobs per hour over all valid entries: the wildcard bucket first,
/// then how many entries' hour fields denote each hour.
pub open spec fn count_hour_wild(lines: Seq<Seq<char>>) -> nat {
    count_lines(lines, |l: Seq<char>| line_counts_hour_wild(l))
}

/// See `count_hour_wild`.
pub open spec fn count_hour(lines: Seq<Seq<char>>, h: u8) -> nat {
    count_lines(lines, |l: Seq<char>| line_counts_hour(l, h))
}

/// Does the vector hold `x`?
fn vec_contains_u8(v: &Vec<u8>, x: u8) -> (r: bool)
    ensures
        r == v@.contains(x),
{
    let mut i: usize = 0;
    while i < v.len()
        invariant
            0 <= i <= v@.len(),
            forall|j: int| 0 <= j < i ==> v@[j] != x,
        decreases v@.len() - i,
    {
        if v[i] == x {
            return true;
        }
        i += 1;
    }
    false
}

/// Count jobs per hour over the given lines. The first result counts
/// entries whose hour field is the wildcard; the vector holds, for
/// each hour 0..=23, how many entries' hour fields denote that hour
/// (each entry counted once per hour it denotes). Lines with fewer
/// than six tokens are ignored.
pub fn hourly_counts(lines: &Vec<String>) -> (r: (usize, Vec<usize>))
    ensures
        r.1@.len() == 24,
        r.0 == count_hour_wild(lines.deep_view()),
        forall|h: int| 0 <= h < 24 ==> r.1@[h] == count_hour(lines.deep_view(), h as u8),
{
    let ghost dv = lines.deep_view();
    let mut wild: usize = 0;
    let mut counts: Vec<usize> = Vec::new();
    let mut p: usize = 0;
    while p < 24
        invariant
            p == counts@.len() <= 24,
            forall|u: int| 0 <= u < p ==> #[trigger] counts@[u] == 0,
        decreases 24 - p,
    {
        counts.push(0);
        p += 1;
    }
    let mut i: usize = 0;
    proof {
        assert(dv.take(0) =~= Seq::<Seq<char>>::empty());
    }
    while i < lines.len()
        invariant
            dv == lines.deep_view(),
            0 <= i <= lines@.len() == dv.len(),
            counts@.len() == 24,
            wild == count_hour_wild(dv.take(i as int)),
            forall|h: int| 0 <= h < 24 ==> counts@[h] == count_hour(dv.take(i as int), h as u8),
        decreases lines@.len() - i,
    {
        proof {
            assert(lines.deep_view()[i as int] == lines@[i as int]@);
            assert(dv.take(i + 1).drop_last() =~= dv.take(i as int));
            assert(dv.take(i + 1).last() == dv[i as int]);
        }
        let line = &lines[i];
        let toks = split_spaces(line.as_str());
        let ghost ts = tokens_of(dv[i as int]);
        if toks.len() >= 6 {
            proof {
                assert(toks.deep_view()[1] == toks@[1]@);
            }
            let field = toks[1].as_str();
            if str_eq(field, "*") {
                proof {
                    lemma_count_lines_le(
                        dv.take(i as int),
                        |l: Seq<char>| line_counts_hour_wild(l),
                    );
                }
                wild = wild + 1;
            } else {
                let hs = parse_hour_field(field);
                let mut h: usize = 0;
                while h < 24
                    invariant
                        dv == lines.deep_view(),
                        0 <= i < dv.len(),
                        i < usize::MAX,
                        0 <= h <= 24,
                        counts@.len() == 24,
                        hs@ == ascending_values(ts[1], FieldDomain::Hour),
                        ts == tokens_of(dv[i as int]),
                        ts.len() >= 6,
                        ts[1] != "*"@,
                        forall|u: int|
                            h <= u < 24 ==> counts@[u] == count_hour(dv.take(i as int), u as u8),
                        forall|u: int|
                            0 <= u < h ==> counts@[u] == count_hour(dv.take(i + 1), u as u8),
                    decreases 24 - h,
                {
                    proof {
                        assert(dv.take(i + 1).drop_last() =~= dv.take(i as int));
                        assert(dv.take(i + 1).last() == dv[i as int]);
                        lemma_count_lines_le(
                            dv.take(i as int),
                            |l: Seq<char>| line_counts_hour(l, h as u8),
                        );
                    }
                    if vec_contains_u8(&hs, h as u8) {
                        let c = counts[h];
                        counts[h] = c + 1;
                    }
                    h += 1;
                }
            }
        } else {
            proof {
                assert(ts.len() < 6);
            }
        }
        i += 1;
    }
    proof {
        assert(dv.take(dv.len() as int) =~= dv);
    }
    (wild, counts)
}

/// How many times `d` occurs in `vs`.
pub open spec fn count_in(vs: Seq<u8>, d: u8) -> nat
    decreases vs.len(),
{
    if vs.len() == 0 {
        0
    } else {
        count_in(vs.drop_last(), d) + (if vs.last() == d {
            1nat
        } else {
            0nat
        })
    }
}

/// `n` clamped to what a `usize` can hold.
pub open spec fn cap_usize(n: nat) -> nat {
    if n > usize::MAX {
        usize::MAX as nat
    } else {
        n
    }
}

/// Weight of one line in the weekday histogram's wildcard bucket.
pub open spec fn line_counts_dow_wild(l: Seq<char>) -> nat {
    let ts = tokens_of(l);
    if ts.len() >= 6 && ts[4] == "*"@ {
        1
    } else {
        0
    }
}

/// Weight of one line in the bucket for weekday `d`: how many times
/// the line's day-of-week field denotes `d` (duplicates count).
pub open spec fn line_counts_dow(l: Seq<char>, d: u8) -> nat {
    let ts = tokens_of(l);
    if ts.len() >= 6 && ts[4] != "*"@ {
        count_in(field_values(ts[4], FieldDomain::DayOfWeek), d)
    } else {
        0
    }
}

/// Jobs per weekday over all valid entries, wildcard bucket apart.
pub open spec fn count_dow_wild(lines: Seq<Seq<char>>) -> nat {
    count_lines(lines, |l: Seq<char>| line_counts_dow_wild(l))
}

/// See `count_dow_wild`.
pub open spec fn count_dow(lines: Seq<Seq<char>>, d: u8) -> nat {
    count_lines(lines, |l: Seq<char>| line_counts_dow(l, d))
}

/// Count jobs per weekday over the given lines: the wildcard count,
/// then a bucket per weekday 0..=6 (an entry counts once for each
/// time its field denotes the day). Buckets saturate at `usize::MAX`.
pub fn dow_counts(lines: &Vec<String>) -> (r: (usize, Vec<usize>))
    ensures
        r.1@.len() == 7,
        r.0 == count_dow_wild(lines.deep_view()),
        forall|d: int| 0 <= d < 7 ==> r.1@[d] == cap_usize(count_dow(lines.deep_view(), d as u8)),
{
    let ghost dv = lines.deep_view();
    let mut wild: usize = 0;
    let mut counts: Vec<usize> = Vec::new();
    let mut p: usize = 0;
    while p < 7
        invariant
            p == counts@.len() <= 7,
            forall|u: int| 0 <= u < p ==> #[trigger] counts@[u] == 0,
        decreases 7 - p,
    {
        counts.push(0);
        p += 1;
    }
    let mut i: usize = 0;
    proof {
        assert(dv.take(0) =~= Seq::<Seq<char>>::empty());
    }
    while i < lines.len()
        invariant
            dv == lines.deep_view(),
            0 <= i <= lines@.len() == dv.len(),
            counts@.len() == 7,
            wild == count_dow_wild(dv.take(i as int)),
            forall|d: int|
                0 <= d < 7 ==> counts@[d] == cap_usize(count_dow(dv.take(i as int), d as u8)),
        decreases lines@.len() - i,
    {
        proof {
            assert(lines.deep_view()[i as int] == lines@[i as int]@);
            assert(dv.take(i + 1).drop_last() =~= dv.take(i as int));
            assert(dv.take(i + 1).last() == dv[i as int]);
        }
        let line = &lines[i];
        let toks = split_spaces(line.as_str());
        let ghost ts = tokens_of(dv[i as int]);
        if toks.len() >= 6 {
            proof {
                assert(toks.deep_view()[4] == toks@[4]@);
            }
            let field = toks[4].as_str();
            if str_eq(field, "*") {
                proof {
                    lemma_count_lines_le(dv.take(i as int), |l: Seq<char>| line_counts_dow_wild(l));
                }
                wild = wild + 1;
            } else {
                let ds = parse_dow_field(field);
                let ghost fv = field_values(ts[4], FieldDomain::DayOfWeek);
                let mut j: usize = 0;
                proof {
                    assert(fv.take(0) =~= Seq::<u8>::empty());
                }
                while j < ds.len()
                    invariant
                        0 <= j <= ds@.len(),
                        counts@.len() == 7,
                        ds@ == fv,
                        forall|k: int| 0 <= k < ds@.len() ==> #[trigger] ds@[k] <= 6,
                        forall|d: int|
                            0 <= d < 7 ==> counts@[d] == cap_usize(
                                count_dow(dv.take(i as int), d as u8) + count_in(
                                    fv.take(j as int),
                                    d as u8,
                                ),
                            ),
                    decreases ds@.len() - j,
                {
                    let target = ds[j];
                    proof {
                        assert(fv.take(j + 1).drop_last() =~= fv.take(j as int));
                        assert(fv.take(j + 1).last() == fv[j as int]);
                    }
                    let c = counts[target as usize];
                    if c < usize::MAX {
                        counts[target as usize] = c + 1;
                    }
                    j += 1;
                }
                proof {
                    assert(fv.take(fv.len() as int) =~= fv);
                    assert(dv.take(i + 1).drop_last() =~= dv.take(i as int));
                    assert(dv.take(i + 1).last() == dv[i as int]);
                }
            }
        } else {
            proof {
                assert(ts.len() < 6);
            }
        }
        i += 1;
    }
    proof {
        assert(dv.take(dv.len() as int) =~= dv);
    }
    (wild, counts)
}

/// Weight of one line in the monthly histogram's wildcard bucket.
pub open spec fn line_counts_month_wild(l: Seq<char>) -> nat {
    let ts = tokens_of(l);
    if ts.len() >= 6 && ts[3] == "*"@ {
        1
    } else {
        0
    }
}

/// Weight of one line in the bucket for month `m`: one exactly when
/// the month field is the plain decimal string for `m`.
pub open spec fn line_counts_month(l: Seq<char>, m: u8) -> nat {
    let ts = tokens_of(l);
    if ts.len() >= 6 && ts[3] == dec_str(m as nat) {
        1
    } else {
        0
    }
}

/// Jobs per month over all valid entries, wildcard bucket apart.
pub open spec fn count_month_wild(lines: Seq<Seq<char>>) -> nat {
    count_lines(lines, |l: Seq<char>| line_counts_month_wild(l))
}

/// See `count_month_wild`.
pub open spec fn count_month(lines: Seq<Seq<char>>, m: u8) -> nat {
    count_lines(lines, |l: Seq<char>| line_counts_month(l, m))
}

/// Count jobs per month over the given lines: the wildcard count,
/// then a bucket per month; index `m - 1` holds the count of entries
/// whose month field is exactly the decimal string of month `m`.
pub fn month_counts(lines: &Vec<String>) -> (r: (usize, Vec<usize>))
    ensures
        r.1@.len() == 12,
        r.0 == count_month_wild(lines.deep_view()),
        forall|m: int|
            1 <= m <= 12 ==> r.1@[m - 1] == count_month(lines.deep_view(), #[trigger] (m as u8)),
{
    let ghost dv = lines.deep_view();
    let mut wild: usize = 0;
    let mut counts: Vec<usize> = Vec::new();
    let mut p: usize = 0;
    while p < 12
        invariant
            p == counts@.len() <= 12,
            forall|u: int| 0 <= u < p ==> #[trigger] counts@[u] == 0,
        decreases 12 - p,
    {
        counts.push(0);
        p += 1;
    }
    let mut i: usize = 0;
    proof {
        assert(dv.take(0) =~= Seq::<Seq<char>>::empty());
    }
    while i < lines.len()
        invariant
            dv == lines.deep_view(),
            0 <= i <= lines@.len() == dv.len(),
            counts@.len() == 12,
            wild == count_month_wild(dv.take(i as int)),
            forall|m: int|
                1 <= m <= 12 ==> counts@[m - 1] == count_month(dv.take(i as int), #[trigger] (m as u8)),
        decreases lines@.len() - i,
    {
        proof {
            assert(lines.deep_view()[i as int] == lines@[i as int]@);
            assert(dv.take(i + 1).drop_last() =~= dv.take(i as int));
            assert(dv.take(i + 1).last() == dv[i as int]);
        }
        let line = &lines[i];
        let toks = split_spaces(line.as_str());
        let ghost ts = tokens_of(dv[i as int]);
        if toks.len() >= 6 {
            proof {
                assert(toks.deep_view()[3] == toks@[3]@);
            }
            let field = toks[3].as_str();
            if str_eq(field, "*") {
                proof {
                    lemma_count_lines_le(
                        dv.take(i as int),
                        |l: Seq<char>| line_counts_month_wild(l),
                    );
                }
                wild = wild + 1;
            }
            let mut m: usize = 1;
            while m <= 12
                invariant
                    dv == lines.deep_view(),
                    0 <= i < dv.len(),
                    i < usize::MAX,
                    1 <= m <= 13,
                    counts@.len() == 12,
                    ts == tokens_of(dv[i as int]),
                    ts.len() >= 6,
                    field@ == ts[3],
                    forall|u: int|
                        m <= u <= 12 ==> counts@[u - 1] == count_month(
                            dv.take(i as int),
                            #[trigger] (u as u8),
                        ),
                    forall|u: int|
                        1 <= u < m ==> counts@[u - 1] == count_month(dv.take(i + 1), #[trigger] (u as u8)),
                decreases 13 - m,
            {
                proof {
                    assert(dv.take(i + 1).drop_last() =~= dv.take(i as int));
                    assert(dv.take(i + 1).last() == dv[i as int]);
                    lemma_count_lines_le(
                        dv.take(i as int),
                        |l: Seq<char>| line_counts_month(l, m as u8),
                    );
                }
                let ms = u32_to_string(m as u32);
                if str_eq(field, ms.as_str()) {
                    let c = counts[m - 1];
                    counts[m - 1] = c + 1;
                }
                m += 1;
            }
        } else {
            proof {
                assert(ts.len() < 6);
            }
        }
        i += 1;
    }
    proof {
        assert(dv.take(dv.len() as int) =~= dv);
    }
    (wild, counts)
}

/// The month a command-line argument picks: a number 1..=12, or a
/// full month name in any case.
pub open spec fn month_name_arg(a: Seq<char>) -> Option<u8> {
    if seq_matches_ci(a, "january"@) {
        Some(1u8)
    } else if seq_matches_ci(a, "february"@) {
        Some(2u8)
    } else if seq_matches_ci(a, "march"@) {
        Some(3u8)
    } else if seq_matches_ci(a, "april"@) {
        Some(4u8)
    } else if seq_matches_ci(a, "may"@) {
        Some(5u8)
    } else if seq_matches_ci(a, "june"@) {
        Some(6u8)
    } else if seq_matches_ci(a, "july"@) {
        Some(7u8)
    } else if seq_matches_ci(a, "august"@) {
        Some(8u8)
    } else if seq_matches_ci(a, "september"@) {
        Some(9u8)
    } else if seq_matches_ci(a, "october"@) {
        Some(10u8)
    } else if seq_matches_ci(a, "november"@) {
        Some(11u8)
    } else if seq_matches_ci(a, "december"@) {
        Some(12u8)
    } else {
        None
    }
}

/// See `month_name_arg`: numbers in range win, anything else falls
/// back to the name table.
pub open spec fn month_arg_spec(a: Seq<char>) -> Option<u8> {
    match parse_u8_spec(a) {
        Some(n) => if 1 <= n && n <= 12 {
            Some(n)
        } else {
            month_name_arg(a)
        },
        None => month_name_arg(a),
    }
}

/// Resolve a month argument, "6" or "June", to its number.
pub fn resolve_month_arg(arg: &str) -> (r: Option<u8>)
    ensures
        r == month_arg_spec(arg@),
        r matches Some(m) ==> 1 <= m <= 12,
{
    if let Some(n) = parse_u8(arg) {
        if 1 <= n && n <= 12 {
            return Some(n);
        }
    }
    if str_matches_ci(arg, "january") {
        Some(1)
    } else if str_matches_ci(arg, "february") {
        Some(2)
    } else if str_matches_ci(arg, "march") {
        Some(3)
    } else if str_matches_ci(arg, "april") {
        Some(4)
    } else if str_matches_ci(arg, "may") {
        Some(5)
    } else if str_matches_ci(arg, "june") {
        Some(6)
    } else if str_matches_ci(arg, "july") {
        Some(7)
    } else if str_matches_ci(arg, "august") {
        Some(8)
    } else if str_matches_ci(arg, "september") {
        Some(9)
    } else if str_matches_ci(arg, "october") {
        Some(10)
    } else if str_matches_ci(arg, "november") {
        Some(11)
    } else if str_matches_ci(arg, "december") {
        Some(12)
    } else {
        None
    }
}

/// The line belongs to month `m`'s detail view: its month field is
/// the wildcard or parses to exactly `m`.
pub open spec fn detail_included(l: Seq<char>, m: u8) -> bool {
    let ts = tokens_of(l);
    ts.len() >= 6 && (ts[3] == "*"@ || parse_u8_spec(ts[3]) == Some(m))
}

/// Weight of one line in the day bucket `day` of month `m`'s detail.
pub open spec fn line_counts_detail_day(l: Seq<char>, m: u8, day: u8) -> nat {
    let ts = tokens_of(l);
    if detail_included(l, m) && parse_u8_spec(ts[2]) == Some(day) {
        1
    } else {
        0
    }
}

/// The hour label bucket of a raw hour field in the detail view: 256
/// for the wildcard, else the parsed hour with 0 for anything
/// unparseable.
pub open spec fn hour_bucket_of(hs: Seq<char>) -> int {
    if hs == "*"@ {
        256
    } else {
        match parse_u8_spec(hs) {
            Some(v) => v as int,
            None => 0,
        }
    }
}

/// Weight of one line in hour bucket `b` of day `day` in month `m`'s
/// detail.
pub open spec fn line_counts_detail_hour(l: Seq<char>, m: u8, day: u8, b: int) -> nat {
    let ts = tokens_of(l);
    if detail_included(l, m) && parse_u8_spec(ts[2]) == Some(day) && hour_bucket_of(ts[1]) == b {
        1
    } else {
        0
    }
}

/// Jobs per day of month in month `m`'s detail view.
pub open spec fn count_detail_day(lines: Seq<Seq<char>>, m: u8, day: u8) -> nat {
    count_lines(lines, |l: Seq<char>| line_counts_detail_day(l, m, day))
}

/// Jobs per (day, hour label) in month `m`'s detail view.
pub open spec fn count_detail_hour(lines: Seq<Seq<char>>, m: u8, day: u8, b: int) -> nat {
    count_lines(lines, |l: Seq<char>| line_counts_detail_hour(l, m, day, b))
}

/// The detailed breakdown for one month: per-day job counts, and a
/// flat day-major table of per-hour-label counts, 257 buckets per
/// day (hour values 0..=255, then the wildcard label at index 256).
pub struct MonthDetail {
    pub day_counts: Vec<usize>,
    pub hour_counts: Vec<usize>,
}

/// Count jobs per day and per (day, hour label) among the lines that
/// belong to `month_num`'s detail view: lines with at least six
/// tokens, a month field that is "*" or parses to `month_num`, and a
/// day-of-month field that parses.
pub fn month_detail_counts(lines: &Vec<String>, month_num: u8) -> (r: MonthDetail)
    requires
        1 <= month_num <= 12,
    ensures
        r.day_counts@.len() == 256,
        r.hour_counts@.len() == 256 * 257,
        forall|day: int|
            0 <= day < 256 ==> r.day_counts@[day] == count_detail_day(
                lines.deep_view(),
                month_num,
                #[trigger] (day as u8),
            ),
        forall|day: int, b: int|
            0 <= day < 256 && 0 <= b <= 256 ==> r.hour_counts@[day * 257 + b]
                == #[trigger] count_detail_hour(lines.deep_view(), month_num, day as u8, b),
{
    let ghost dv = lines.deep_view();
    let mut day_counts: Vec<usize> = Vec::new();
    let mut p: usize = 0;
    while p < 256
        invariant
            p == day_counts@.len() <= 256,
            forall|u: int| 0 <= u < p ==> #[trigger] day_counts@[u] == 0,
        decreases 256 - p,
    {
        day_counts.push(0);
        p += 1;
    }
    let mut hour_counts: Vec<usize> = Vec::new();
    let mut q: usize = 0;
    while q < 256 * 257
        invariant
            q == hour_counts@.len() <= 256 * 257,
            forall|u: int| 0 <= u < q ==> #[trigger] hour_counts@[u] == 0,
        decreases 256 * 257 - q,
    {
        hour_counts.push(0);
        q += 1;
    }
    let mut i: usize = 0;
    proof {
        assert(dv.take(0) =~= Seq::<Seq<char>>::empty());
    }
    while i < lines.len()
        invariant
            dv == lines.deep_view(),
            0 <= i <= lines@.len() == dv.len(),
            day_counts@.len() == 256,
            hour_counts@.len() == 256 * 257,
            forall|day: int|
                0 <= day < 256 ==> day_counts@[day] == count_detail_day(
                    dv.take(i as int),
                    month_num,
                    #[trigger] (day as u8),
                ),
            forall|day: int, b: int|
                0 <= day < 256 && 0 <= b <= 256 ==> hour_counts@[day * 257 + b]
                    == #[trigger] count_detail_hour(dv.take(i as int), month_num, day as u8, b),
        decreases lines@.len() - i,
    {
        proof {
            assert(lines.deep_view()[i as int] == lines@[i as int]@);
            assert(dv.take(i + 1).drop_last() =~= dv.take(i as int));
            assert(dv.take(i + 1).last() == dv[i as int]);
        }
        let line = &lines[i];
        let toks = split_spaces(line.as_str());
        let ghost ts = tokens_of(dv[i as int]);
        let ghost mut upd: Option<(u8, int)> = None;
        if toks.len() >= 6 {
            proof {
                assert(toks.deep_view()[1] == toks@[1]@);
                assert(toks.deep_view()[2] == toks@[2]@);
                assert(toks.deep_view()[3] == toks@[3]@);
            }
            let month_field = toks[3].as_str();
            let included = if str_eq(month_field, "*") {
                true
            } else {
                match parse_u8(month_field) {
                    Some(v) => v == month_num,
                    None => false,
                }
            };
            if included {
                if let Some(day) = parse_u8(toks[2].as_str()) {
                    proof {
                        assert(day_counts@[day as int] == count_detail_day(
                            dv.take(i as int),
                            month_num,
                            day,
                        ));
                        lemma_count_lines_le(
                            dv.take(i as int),
                            |l: Seq<char>| line_counts_detail_day(l, month_num, day),
                        );
                    }
                    let c = day_counts[day as usize];
                    day_counts[day as usize] = c + 1;
                    let bucket: usize = if str_eq(toks[1].as_str(), "*") {
                        256
                    } else {
                        match parse_u8(toks[1].as_str()) {
                            Some(v) => v as usize,
                            None => 0,
                        }
                    };
                    proof {
                        assert(hour_bucket_of(ts[1]) == bucket as int);
                        assert(hour_counts@[day as int * 257 + bucket as int]
                            == count_detail_hour(
                            dv.take(i as int),
                            month_num,
                            day,
                            bucket as int,
                        ));
                        lemma_count_lines_le(
                            dv.take(i as int),
                            |l: Seq<char>| line_counts_detail_hour(
                                l,
                                month_num,
                                day,
                                bucket as int,
                            ),
                        );
                    }
                    let hc = hour_counts[day as usize * 257 + bucket];
                    hour_counts[day as usize * 257 + bucket] = hc + 1;
                    proof {
                        upd = Some((day, bucket as int));
                        assert(line_counts_detail_day(dv[i as int], month_num, day) == 1);
                        assert(line_counts_detail_hour(
                            dv[i as int],
                            month_num,
                            day,
                            bucket as int,
                        ) == 1);
                    }
                }
            }
        } else {
            proof {
                assert(ts.len() < 6);
            }
        }
        proof {
            assert forall|dayi: int| 0 <= dayi < 256 implies day_counts@[dayi]
                == count_detail_day(dv.take(i + 1), month_num, dayi as u8) by {
                assert(dv.take(i + 1).drop_last() =~= dv.take(i as int));
                assert(dv.take(i + 1).last() == dv[i as int]);
                match upd {
                    Some((d0, b0)) => {
                        if dayi != d0 as int {
                            assert(line_counts_detail_day(dv[i as int], month_num, dayi as u8)
                                == 0);
                        }
                    },
                    None => {
                        assert(line_counts_detail_day(dv[i as int], month_num, dayi as u8) == 0);
                    },
                }
            }
            assert forall|dayi: int, b: int| 0 <= dayi < 256 && 0 <= b <= 256 implies
                hour_counts@[dayi * 257 + b] == #[trigger] count_detail_hour(
                dv.take(i + 1),
                month_num,
                dayi as u8,
                b,
            ) by {
                assert(dv.take(i + 1).drop_last() =~= dv.take(i as int));
                assert(dv.take(i + 1).last() == dv[i as int]);
                let pre = count_detail_hour(dv.take(i as int), month_num, dayi as u8, b);
                assert(count_detail_hour(dv.take(i + 1), month_num, dayi as u8, b) == pre
                    + line_counts_detail_hour(dv[i as int], month_num, dayi as u8, b));
                match upd {
                    Some((d0, b0)) => {
                        if !(dayi == d0 as int && b == b0) {
                            assert(dayi * 257 + b != d0 as int * 257 + b0);
                            assert(line_counts_detail_hour(
                                dv[i as int],
                                month_num,
                                dayi as u8,
                                b,
                            ) == 0);
                        }
                    },
                    None => {
                        assert(line_counts_detail_hour(dv[i as int], month_num, dayi as u8, b)
                            == 0);
                    },
                }
            }
        }
        i += 1;
    }
    proof {
        assert(dv.take(dv.len() as int) =~= dv);
    }
    MonthDetail { day_counts, hour_counts }
}

/// A line of fewer than six whitespace tokens is no entry and adds
/// to no bucket of any histogram.
pub proof fn lemma_short_line_excluded(l: Seq<char>)
    requires
        tokens_of(l).len() < 6,
    ensures
        entry_of_line(l) is None,
        line_counts_hour_wild(l) == 0,
        forall|h: u8| #[trigger] line_counts_hour(l, h) == 0,
        line_counts_dow_wild(l) == 0,
        forall|d: u8| #[trigger] line_counts_dow(l, d) == 0,
        line_counts_month_wild(l) == 0,
        forall|m: u8| #[trigger] line_counts_month(l, m) == 0,
        forall|m: u8, day: u8| #[trigger] line_counts_detail_day(l, m, day) == 0,
        forall|m: u8, day: u8, b: int| #[trigger] line_counts_detail_hour(l, m, day, b) == 0,
{
}

/// Appending a line of fewer than six whitespace tokens to a list
/// leaves every bucket of every histogram unchanged — the wildcard
/// buckets, the hourly, weekday and monthly buckets, and the
/// month-detail day and hour buckets alike.
pub proof fn lemma_short_line_leaves_counts(lines: Seq<Seq<char>>, l: Seq<char>)
    requires
        tokens_of(l).len() < 6,
    ensures
        count_hour_wild(lines.push(l)) == count_hour_wild(lines),
        forall|h: u8| #[trigger] count_hour(lines.push(l), h) == count_hour(lines, h),
        count_dow_wild(lines.push(l)) == count_dow_wild(lines),
        forall|d: u8| #[trigger] count_dow(lines.push(l), d) == count_dow(lines, d),
        count_month_wild(lines.push(l)) == count_month_wild(lines),
        forall|m: u8| #[trigger] count_month(lines.push(l), m) == count_month(lines, m),
        forall|m: u8, day: u8|
            #[trigger] count_detail_day(lines.push(l), m, day) == count_detail_day(lines, m, day),
        forall|m: u8, day: u8, b: int|
            #[trigger] count_detail_hour(lines.push(l), m, day, b) == count_detail_hour(
                lines,
                m,
                day,
                b,
            ),
{
    lemma_short_line_excluded(l);
    assert(lines.push(l).drop_last() =~= lines);
    assert(lines.push(l).last() == l);
}

/// A wildcard field routes its line into the dedicated "any" bucket
/// of its histogram and into none of the concrete-value buckets.
pub proof fn lemma_wildcard_routes_to_any(l: Seq<char>)
    requires
        tokens_of(l).len() >= 6,
    ensures
        tokens_of(l)[1] == "*"@ ==> line_counts_hour_wild(l) == 1 && forall|h: u8|
            #[trigger] line_counts_hour(l, h) == 0,
        tokens_of(l)[4] == "*"@ ==> line_counts_dow_wild(l) == 1 && forall|d: u8|
            #[trigger] line_counts_dow(l, d) == 0,
        tokens_of(l)[3] == "*"@ ==> line_counts_month_wild(l) == 1 && forall|m: u8|
            1 <= m <= 12 ==> #[trigger] line_counts_month(l, m) == 0,
{
    if tokens_of(l)[3] == "*"@ {
        assert forall|m: u8| 1 <= m <= 12 implies #[trigger] line_counts_month(l, m) == 0 by {
            reveal_strlit("*");
            assert(dec_str(m as nat).len() >= 1);
            if m >= 10 {
                assert(dec_str((m as nat) / 10).len() >= 1);
                assert(dec_str(m as nat).len() >= 2);
            } else {
                assert(dec_str(m as nat)[0] != '*');
            }
        }
    }
}

} // verus!
