//! The schedule describer: turns the five raw fields of one crontab
//! entry into a single natural-language sentence.
//!
//! When the day-of-week field denotes exactly one weekday the sentence
//! names it; when it denotes several (or none that parse), the
//! sentence uses the word "multiple" instead. That one policy is
//! applied in every sentence shape.

use vstd::prelude::*;

use crate::fields::{field_values, parse_dow_field, FieldDomain};
use crate::strutil::{
    dec2_str, dec_str, parse_u32, parse_u32_spec, parse_u8, parse_u8_spec, push_u32_2d, str_eq,
    u32_to_string,
};

verus! {

/// Name of month `m` given as its decimal string "1".."12", with
/// "Unknown" as the out-of-table sentinel.
pub open spec fn month_name_spec(m: Seq<char>) -> Seq<char> {
    if m == "1"@ {
        "January"@
    } else if m == "2"@ {
        "February"@
    } else if m == "3"@ {
        "March"@
    } else if m == "4"@ {
        "April"@
    } else if m == "5"@ {
        "May"@
    } else if m == "6"@ {
        "June"@
    } else if m == "7"@ {
        "July"@
    } else if m == "8"@ {
        "August"@
    } else if m == "9"@ {
        "September"@
    } else if m == "10"@ {
        "October"@
    } else if m == "11"@ {
        "November"@
    } else if m == "12"@ {
        "December"@
    } else {
        "Unknown"@
    }
}

/// Name of weekday `d`, 0 being Sunday, with the "Unknown" sentinel.
pub open spec fn dow_name_spec(d: u8) -> Seq<char> {
    if d == 0 {
        "Sunday"@
    } else if d == 1 {
        "Monday"@
    } else if d == 2 {
        "Tuesday"@
    } else if d == 3 {
        "Wednesday"@
    } else if d == 4 {
        "Thursday"@
    } else if d == 5 {
        "Friday"@
    } else if d == 6 {
        "Saturday"@
    } else {
        "Unknown"@
    }
}

/// The value of a numeric field, with 0 for anything unparseable.
pub open spec fn parse_or_zero_u8(s: Seq<char>) -> u8 {
    match parse_u8_spec(s) {
        Some(v) => v,
        None => 0,
    }
}

/// The value of a numeric field, with 0 for anything unparseable.
pub open spec fn parse_or_zero_u32(s: Seq<char>) -> u32 {
    match parse_u32_spec(s) {
        Some(v) => v,
        None => 0,
    }
}

/// The hour on a 12-hour clock.
pub open spec fn hour12(h: u8) -> u8 {
    if h == 0 {
        12
    } else if h < 12 {
        h
    } else if h == 12 {
        12
    } else {
        (h - 12) as u8
    }
}

/// The meridiem tag for hour `h` of a 24-hour clock.
pub open spec fn am_pm(h: u8) -> Seq<char> {
    if h < 12 {
        "AM"@
    } else {
        "PM"@
    }
}

/// A raw hour field as a two-digit 12-hour clock phrase, "09 AM".
pub open spec fn ampm_hour_spec(hs: Seq<char>) -> Seq<char> {
    let h = parse_or_zero_u8(hs);
    dec2_str(hour12(h) as nat) + " "@ + am_pm(h)
}

/// Raw hour and minute fields as a clock time, "at 02:30 PM".
pub open spec fn format_time_spec(hs: Seq<char>, ms: Seq<char>) -> Seq<char> {
    let h = parse_or_zero_u8(hs);
    let m = parse_or_zero_u8(ms);
    "at "@ + dec2_str(hour12(h) as nat) + ":"@ + dec2_str(m as nat) + " "@ + am_pm(h)
}

/// The ordinal suffix for `n`: a tens digit of 1 always takes "th",
/// otherwise the last digit picks "st", "nd", "rd" or "th".
pub open spec fn suffix_for(n: nat) -> Seq<char> {
    if (n % 100) / 10 == 1 {
        "th"@
    } else if n % 10 == 1 {
        "st"@
    } else if n % 10 == 2 {
        "nd"@
    } else if n % 10 == 3 {
        "rd"@
    } else {
        "th"@
    }
}

/// A raw day-of-month field as an ordinal, "21st"; unparseable days
/// default to 0.
pub open spec fn dom_suffix_spec(s: Seq<char>) -> Seq<char> {
    let n = parse_or_zero_u32(s) as nat;
    dec_str(n) + suffix_for(n)
}

/// The weekday name a sentence uses for a raw day-of-week field: the
/// day's name when the field denotes exactly one day, else "multiple".
pub open spec fn dow_phrase_spec(ds: Seq<char>) -> Seq<char> {
    let vs = field_values(ds, FieldDomain::DayOfWeek);
    if vs.len() == 1 {
        dow_name_spec(vs[0])
    } else {
        "multiple"@
    }
}

/// The clause describing when in the day the entry runs.
pub open spec fn time_part_spec(ms: Seq<char>, hs: Seq<char>) -> Seq<char> {
    if ms == "*"@ && hs == "*"@ {
        "every minute"@
    } else if ms == "*"@ {
        "every minute during the "@ + ampm_hour_spec(hs) + " hour"@
    } else if hs == "*"@ {
        "every hour at "@ + dec2_str(parse_or_zero_u8(ms) as nat) + " minutes past"@
    } else {
        format_time_spec(hs, ms)
    }
}

/// The whole sentence: the time clause, then the date qualifiers,
/// composed by three mutually exclusive cases in priority order.
pub open spec fn describe_spec(
    ms: Seq<char>,
    hs: Seq<char>,
    doms: Seq<char>,
    mons: Seq<char>,
    dows: Seq<char>,
) -> Seq<char> {
    let time = time_part_spec(ms, hs);
    if mons == "*"@ && doms != "*"@ && dows != "*"@ {
        time + " every month on "@ + dom_suffix_spec(doms) + " and every "@ + dow_phrase_spec(dows)
    } else if mons != "*"@ && doms == "*"@ && dows != "*"@ {
        time + " every "@ + dow_phrase_spec(dows) + " in "@ + month_name_spec(mons)
    } else {
        let mon_clause = if mons != "*"@ {
            " on "@ + month_name_spec(mons)
        } else {
            Seq::<char>::empty()
        };
        let dom_clause = if doms != "*"@ {
            " "@ + dom_suffix_spec(doms)
        } else {
            Seq::<char>::empty()
        };
        let dow_clause = if dows != "*"@ {
            (if doms != "*"@ {
                " and every"@
            } else {
                " every"@
            }) + " "@ + dow_phrase_spec(dows)
        } else {
            Seq::<char>::empty()
        };
        time + mon_clause + dom_clause + dow_clause
    }
}

/// Name of a month given as its decimal string "1".."12".
pub fn month_name(m: &str) -> (r: &'static str)
    ensures
        r@ == month_name_spec(m@),
{
    if str_eq(m, "1") {
        "January"
    } else if str_eq(m, "2") {
        "February"
    } else if str_eq(m, "3") {
        "March"
    } else if str_eq(m, "4") {
        "April"
    } else if str_eq(m, "5") {
        "May"
    } else if str_eq(m, "6") {
        "June"
    } else if str_eq(m, "7") {
        "July"
    } else if str_eq(m, "8") {
        "August"
    } else if str_eq(m, "9") {
        "September"
    } else if str_eq(m, "10") {
        "October"
    } else if str_eq(m, "11") {
        "November"
    } else if str_eq(m, "12") {
        "December"
    } else {
        "Unknown"
    }
}

/// Name of weekday `d`, 0 being Sunday.
pub fn dow_name_num(d: u8) -> (r: &'static str)
    ensures
        r@ == dow_name_spec(d),
{
    match d {
        0 => "Sunday",
        1 => "Monday",
        2 => "Tuesday",
        3 => "Wednesday",
        4 => "Thursday",
        5 => "Friday",
        6 => "Saturday",
        _ => "Unknown",
    }
}

/// Render a day-of-month field as an ordinal, "3rd" or "21st".
pub fn day_of_month_with_suffix(day: &str) -> (r: String)
    ensures
        r@ == dom_suffix_spec(day@),
{
    let num = match parse_u32(day) {
        Some(v) => v,
        None => 0,
    };
    let mut out = u32_to_string(num);
    let tens = (num % 100) / 10;
    let ones = num % 10;
    if tens == 1 {
        out.append("th");
    } else if ones == 1 {
        out.append("st");
    } else if ones == 2 {
        out.append("nd");
    } else if ones == 3 {
        out.append("rd");
    } else {
        out.append("th");
    }
    proof {
        assert(out@ =~= dom_suffix_spec(day@));
    }
    out
}

/// Render an hour field on the 12-hour clock, "09 AM".
pub fn hour_to_ampm_string(hour: &str) -> (r: String)
    ensures
        r@ == ampm_hour_spec(hour@),
{
    let h = match parse_u8(hour) {
        Some(v) => v,
        None => 0,
    };
    let h12: u8 = if h == 0 {
        12
    } else if h < 12 {
        h
    } else if h == 12 {
        12
    } else {
        h - 12
    };
    let mut out = String::new();
    push_u32_2d(&mut out, h12 as u32);
    out.append(" ");
    if h < 12 {
        out.append("AM");
    } else {
        out.append("PM");
    }
    proof {
        assert(out@ =~= ampm_hour_spec(hour@));
    }
    out
}

/// Render hour and minute fields as a clock time, "at 02:30 PM".
pub fn format_time(hour: &str, minute: &str) -> (r: String)
    ensures
        r@ == format_time_spec(hour@, minute@),
{
    let h = match parse_u8(hour) {
        Some(v) => v,
        None => 0,
    };
    let m = match parse_u8(minute) {
        Some(v) => v,
        None => 0,
    };
    let h12: u8 = if h == 0 {
        12
    } else if h < 12 {
        h
    } else if h == 12 {
        12
    } else {
        h - 12
    };
    let mut out = String::new();
    out.append("at ");
    push_u32_2d(&mut out, h12 as u32);
    out.append(":");
    push_u32_2d(&mut out, m as u32);
    out.append(" ");
    if h < 12 {
        out.append("AM");
    } else {
        out.append("PM");
    }
    proof {
        assert(out@ =~= format_time_spec(hour@, minute@));
    }
    out
}

/// The weekday name used in a sentence for a raw day-of-week field.
fn dow_phrase(dow: &str) -> (r: String)
    ensures
        r@ == dow_phrase_spec(dow@),
{
    let vs = parse_dow_field(dow);
    if vs.len() == 1 {
        dow_name_num(vs[0]).to_owned()
    } else {
        "multiple".to_owned()
    }
}

/// Describe the five raw fields of one entry as one English sentence.
pub fn cron_to_human_readable(
    minute: &str,
    hour: &str,
    day_of_month: &str,
    month: &str,
    day_of_week: &str,
) -> (r: String)
    ensures
        r@ == describe_spec(minute@, hour@, day_of_month@, month@, day_of_week@),
{
    let m_star = str_eq(minute, "*");
    let h_star = str_eq(hour, "*");
    let dom_star = str_eq(day_of_month, "*");
    let mon_star = str_eq(month, "*");
    let dow_star = str_eq(day_of_week, "*");

    let mut out = String::new();
    if m_star && h_star {
        out.append("every minute");
    } else if m_star {
        out.append("every minute during the ");
        let amp = hour_to_ampm_string(hour);
        out.append(amp.as_str());
        out.append(" hour");
    } else if h_star {
        let m = match parse_u8(minute) {
            Some(v) => v,
            None => 0,
        };
        out.append("every hour at ");
        push_u32_2d(&mut out, m as u32);
        out.append(" minutes past");
    } else {
        let ft = format_time(hour, minute);
        out.append(ft.as_str());
    }
    proof {
        assert(out@ =~= time_part_spec(minute@, hour@));
    }

    if mon_star && !dom_star && !dow_star {
        out.append(" every month on ");
        let ds = day_of_month_with_suffix(day_of_month);
        out.append(ds.as_str());
        out.append(" and every ");
        let dp = dow_phrase(day_of_week);
        out.append(dp.as_str());
        proof {
            assert(out@ =~= describe_spec(minute@, hour@, day_of_month@, month@, day_of_week@));
        }
    } else if !mon_star && dom_star && !dow_star {
        out.append(" every ");
        let dp = dow_phrase(day_of_week);
        out.append(dp.as_str());
        out.append(" in ");
        let mn = month_name(month);
        out.append(mn);
        proof {
            assert(out@ =~= describe_spec(minute@, hour@, day_of_month@, month@, day_of_week@));
        }
    } else {
        if !mon_star {
            out.append(" on ");
            let mn = month_name(month);
            out.append(mn);
        }
        if !dom_star {
            out.append(" ");
            let ds = day_of_month_with_suffix(day_of_month);
            out.append(ds.as_str());
        }
        if !dow_star {
            if !dom_star {
                out.append(" and every");
            } else {
                out.append(" every");
            }
            out.append(" ");
            let dp = dow_phrase(day_of_week);
            out.append(dp.as_str());
        }
        proof {
            assert(out@ =~= describe_spec(minute@, hour@, day_of_month@, month@, day_of_week@));
        }
    }
    out
}

/// Whatever the five fields hold, the sentence is never empty: every
/// shape of the time clause starts with a non-empty word.
pub proof fn lemma_describe_nonempty(
    ms: Seq<char>,
    hs: Seq<char>,
    doms: Seq<char>,
    mons: Seq<char>,
    dows: Seq<char>,
)
    ensures
        describe_spec(ms, hs, doms, mons, dows).len() > 0,
{
    reveal_strlit("every minute");
    reveal_strlit("every minute during the ");
    reveal_strlit("every hour at ");
    reveal_strlit("at ");
}

} // verus!
