//! Structured log lines: JSON, or text for humans.

use crate::json;
use crate::json::{put_field, Json, JsonV};
use crate::text;
use crate::text::decimal_text;
use vstd::prelude::*;

verus! {

/// How log lines are written.
#[derive(Debug, Clone, Copy, PartialEq, Eq, Structural)]
pub enum Format {
    Json,
    Text,
}

/// A calendar date of the Gregorian calendar, extended to all years.
pub struct DateV {
    pub year: int,
    pub month: int,
    pub day: int,
}

pub open spec fn is_leap(y: int) -> bool {
    y % 4 == 0 && (y % 100 != 0 || y % 400 == 0)
}

pub open spec fn days_in_month(y: int, m: int) -> int {
    if m == 2 {
        if is_leap(y) {
            29
        } else {
            28
        }
    } else if m == 4 || m == 6 || m == 9 || m == 11 {
        30
    } else {
        31
    }
}

pub open spec fn is_date(d: DateV) -> bool {
    1 <= d.month <= 12 && 1 <= d.day <= days_in_month(d.year, d.month)
}

/// The days of a year before a month begins.
pub open spec fn days_before_month(y: int, m: int) -> int
    decreases m,
{
    if m <= 1 {
        0
    } else {
        days_before_month(y, m - 1) + days_in_month(y, m - 1)
    }
}

/// The days from the first day of year 1 until a year begins.
pub open spec fn days_before_year(y: int) -> int {
    365 * (y - 1) + (y - 1) / 4 - (y - 1) / 100 + (y - 1) / 400
}

/// The days from the first day of 1970 until a date.
pub open spec fn day_number(d: DateV) -> int {
    days_before_year(d.year) - 719_162 + days_before_month(d.year, d.month) + d.day - 1
}

/// The date of a day, counted from the first day of 1970: years begin in
/// March, so that the leap day comes last, and 400 years are one era.
pub open spec fn date_of(days: int) -> DateV {
    let z = days + 719_468;
    let era = z / 146_097;
    let doe = z % 146_097;
    let yoe = (doe - doe / 1460 + doe / 36_524 - doe / 146_096) / 365;
    let doy = doe - (365 * yoe + yoe / 4 - yoe / 100);
    let mp = (5 * doy + 2) / 153;
    let month = if mp < 10 {
        mp + 3
    } else {
        mp - 9
    };
    DateV {
        year: yoe + era * 400 + if month <= 2 {
            1int
        } else {
            0int
        },
        month,
        day: doy - (153 * mp + 2) / 5 + 1,
    }
}

proof fn lemma_year_of_era(doe: int)
    requires
        0 <= doe < 146_097,
    ensures
        ({
            let yoe = (doe - doe / 1460 + doe / 36_524 - doe / 146_096) / 365;
            &&& 0 <= yoe < 400
            &&& 365 * yoe + yoe / 4 - yoe / 100 <= doe
            &&& yoe < 399 ==> doe < 365 * (yoe + 1) + (yoe + 1) / 4 - (yoe + 1) / 100
        }),
{
}

/// The days before a month, month by month.
proof fn lemma_days_before_month(y: int)
    ensures
        days_before_month(y, 1) == 0,
        days_before_month(y, 2) == 31,
        days_before_month(y, 3) == 59 + if is_leap(y) {
            1int
        } else {
            0int
        },
        days_before_month(y, 4) == days_before_month(y, 3) + 31,
        days_before_month(y, 5) == days_before_month(y, 3) + 61,
        days_before_month(y, 6) == days_before_month(y, 3) + 92,
        days_before_month(y, 7) == days_before_month(y, 3) + 122,
        days_before_month(y, 8) == days_before_month(y, 3) + 153,
        days_before_month(y, 9) == days_before_month(y, 3) + 184,
        days_before_month(y, 10) == days_before_month(y, 3) + 214,
        days_before_month(y, 11) == days_before_month(y, 3) + 245,
        days_before_month(y, 12) == days_before_month(y, 3) + 275,
{
    reveal_with_fuel(days_before_month, 13);
}

/// Division of a year by how often leap days come.
proof fn lemma_year_parts(era: int, yoe: int)
    requires
        0 <= yoe < 400,
    ensures
        (yoe + era * 400) / 4 == yoe / 4 + era * 100,
        (yoe + era * 400) / 100 == yoe / 100 + era * 4,
        (yoe + era * 400) / 400 == era,
        (yoe + era * 400) % 4 == yoe % 4,
        (yoe + era * 400) % 100 == yoe % 100,
        (yoe + era * 400) % 400 == yoe,
{
}

proof fn lemma_step_4(y: int)
    ensures
        y / 4 == (y - 1) / 4 + if y % 4 == 0 {
            1int
        } else {
            0int
        },
{
}

proof fn lemma_step_100(y: int)
    ensures
        y / 100 == (y - 1) / 100 + if y % 100 == 0 {
            1int
        } else {
            0int
        },
{
}

proof fn lemma_step_400(y: int)
    ensures
        y / 400 == (y - 1) / 400 + if y % 400 == 0 {
            1int
        } else {
            0int
        },
{
}

proof fn lemma_multiples(y: int)
    ensures
        y % 400 == 0 ==> y % 100 == 0,
        y % 100 == 0 ==> y % 4 == 0,
{
}

/// A year is a day longer where it is a leap year.
#[verifier::spinoff_prover]
proof fn lemma_year_length(y: int)
    ensures
        days_before_year(y + 1) == days_before_year(y) + 365 + if is_leap(y) {
            1int
        } else {
            0int
        },
{
    lemma_step_4(y);
    lemma_step_100(y);
    lemma_step_400(y);
    lemma_multiples(y);
}

/// The days before a year whose March begins year `yoe` of an era.
proof fn lemma_days_before_year(era: int, yoe: int)
    requires
        0 <= yoe < 400,
    ensures
        days_before_year(yoe + era * 400 + 1) == era * 146_097 + 365 * yoe + yoe / 4 - yoe / 100,
        days_before_year(yoe + era * 400 + 1) == days_before_year(yoe + era * 400) + 365
            + if is_leap(yoe + era * 400) {
            1int
        } else {
            0int
        },
        is_leap(yoe + era * 400) == is_leap(yoe),
        is_leap(yoe + era * 400 + 1) == is_leap(yoe + 1),
{
    let y = yoe + era * 400;
    lemma_year_parts(era, yoe);
    lemma_year_length(y);
    assert(365 * y == 365 * yoe + era * 146_000);
    if yoe < 399 {
        lemma_year_parts(era, yoe + 1);
    } else {
        lemma_year_parts(era + 1, 0);
    }
}

/// The date of a day is a date, and counting the days until it gives the day
/// back.
pub proof fn date_is_the_calendar_date(days: int)
    ensures
        is_date(date_of(days)),
        day_number(date_of(days)) == days,
{
    let z = days + 719_468;
    let era = z / 146_097;
    let doe = z % 146_097;
    let yoe = (doe - doe / 1460 + doe / 36_524 - doe / 146_096) / 365;
    lemma_year_of_era(doe);
    lemma_days_before_year(era, yoe);
    let doy = doe - (365 * yoe + yoe / 4 - yoe / 100);
    assert(0 <= doy <= 365);
    assert(doy == 365 ==> is_leap(yoe + 1));
    let mp = (5 * doy + 2) / 153;
    assert(0 <= mp <= 11);
    let d = date_of(days);
    lemma_days_before_month(d.year);
    assert(z == era * 146_097 + doe);
    if mp < 10 {
        assert(d.year == yoe + era * 400);
    } else {
        assert(d.year == yoe + era * 400 + 1);
    }
}

/// A decimal number with zeros before it, up to `w` digits.
pub open spec fn padded(n: nat, w: nat) -> Seq<char> {
    let d = text::decimal(n);
    if d.len() >= w {
        d
    } else {
        Seq::new((w - d.len()) as nat, |i: int| '0') + d
    }
}

/// A year of at least four characters, the minus sign among them.
pub open spec fn year_text(y: int) -> Seq<char> {
    if y < 0 {
        seq!['-'] + padded((-y) as nat, 3)
    } else {
        padded(y as nat, 4)
    }
}

/// A point in time, given in milliseconds since 1970, as text: date and time of
/// day in UTC.
pub open spec fn iso_text(ms: int) -> Seq<char> {
    let secs = ms / 1000;
    let sod = secs % 86_400;
    let d = date_of(secs / 86_400);
    year_text(d.year) + seq!['-'] + padded(d.month as nat, 2) + seq!['-'] + padded(
        d.day as nat,
        2,
    ) + seq!['T'] + padded((sod / 3600) as nat, 2) + seq![':'] + padded(
        ((sod % 3600) / 60) as nat,
        2,
    ) + seq![':'] + padded((sod % 60) as nat, 2) + seq!['.'] + padded((ms % 1000) as nat, 3)
        + seq!['Z']
}

/// Writes a decimal number with zeros before it, up to `w` digits.
pub fn push_padded(out: &mut String, n: u64, w: usize)
    ensures
        final(out)@ == old(out)@ + padded(n as nat, w as nat),
{
    let d = decimal_text(n);
    let ghost start = out@;
    let len: usize = text::chars_of(d.as_str()).len();
    if len < w {
        let k: usize = w - len;
        let mut i: usize = 0;
        assert(out@ =~= start + Seq::new(0, |i: int| '0'));
        while i < k
            invariant
                i <= k,
                out@ == start + Seq::new(i as nat, |i: int| '0'),
            decreases k - i,
        {
            out.push('0');
            i += 1;
            assert(out@ =~= start + Seq::new(i as nat, |i: int| '0'));
        }
    }
    out.append(d.as_str());
    assert(out@ =~= start + padded(n as nat, w as nat));
}

/// Adding whole eras moves a time by whole days.
#[verifier::spinoff_prover]
proof fn lemma_whole_eras(ms: int, total: int)
    requires
        total == ms + 12_622_780_800_000_000_000,
    ensures
        total / 1000 == ms / 1000 + 12_622_780_800_000_000,
        total % 1000 == ms % 1000,
        (total / 1000) / 86_400 == (ms / 1000) / 86_400 + 146_097_000_000,
        (total / 1000) % 86_400 == (ms / 1000) % 86_400,
{
}

#[verifier::spinoff_prover]
proof fn lemma_era_shift(days: int)
    ensures
        (days + 146_097_000_000 + 719_468) / 146_097 == (days + 719_468) / 146_097 + 1_000_000,
        (days + 146_097_000_000 + 719_468) % 146_097 == (days + 719_468) % 146_097,
{
}

/// The date of a day that is counted from whole eras before 1970.
#[verifier::spinoff_prover]
fn date_from(z: u64, Ghost(days): Ghost<int>) -> (res: (i64, u64, u64))
    requires
        z == days + 146_097_000_000 + 719_468,
        z <= 300_000_000_000,
    ensures
        date_of(days) == (DateV { year: res.0 as int, month: res.1 as int, day: res.2 as int }),
        i64::MIN < res.0,
{
    let era: u64 = z / 146_097;
    let doe: u64 = z % 146_097;
    proof {
        lemma_era_shift(days);
        lemma_year_of_era(doe as int);
        date_is_the_calendar_date(days);
    }
    let yoe: u64 = (doe - doe / 1460 + doe / 36_524 - doe / 146_096) / 365;
    let doy: u64 = doe - (365 * yoe + yoe / 4 - yoe / 100);
    let mp: u64 = (5 * doy + 2) / 153;
    let day: u64 = doy - (153 * mp + 2) / 5 + 1;
    let month: u64 = if mp < 10 {
        mp + 3
    } else {
        mp - 9
    };
    let base: i64 = (era as i64 - 1_000_000) * 400 + yoe as i64;
    let year: i64 = if month <= 2 {
        base + 1
    } else {
        base
    };
    (year, month, day)
}

/// A point in time, given in milliseconds since 1970, as
/// "2026-07-18T09:00:00.123Z".
#[verifier::spinoff_prover]
pub fn iso8601(ms: i64) -> (res: String)
    ensures
        res@ == iso_text(ms as int),
{
    let total: u128 = (ms as i128 + 12_622_780_800_000_000_000i128) as u128;
    let ghost days = (ms as int / 1000) / 86_400;
    proof {
        lemma_whole_eras(ms as int, total as int);
    }
    let secs: u128 = total / 1000;
    let millis: u64 = (total % 1000) as u64;
    let sod: u64 = (secs % 86_400) as u64;
    let z: u64 = (secs / 86_400) as u64 + 719_468;
    let (year, month, day) = date_from(z, Ghost(days));
    let mut s = String::new();
    if year < 0 {
        s.push('-');
        push_padded(&mut s, (-year) as u64, 3);
    } else {
        push_padded(&mut s, year as u64, 4);
    }
    assert(s@ =~= year_text(year as int));
    s.push('-');
    push_padded(&mut s, month, 2);
    s.push('-');
    push_padded(&mut s, day, 2);
    s.push('T');
    push_padded(&mut s, sod / 3600, 2);
    s.push(':');
    push_padded(&mut s, (sod % 3600) / 60, 2);
    s.push(':');
    push_padded(&mut s, sod % 60, 2);
    s.push('.');
    push_padded(&mut s, millis, 3);
    s.push('Z');
    assert(s@ =~= iso_text(ms as int));
    s
}

/// The members of a log line after those of `extra`, which take precedence.
pub open spec fn merged(o: Seq<(Seq<char>, JsonV)>, extra: Seq<(Seq<char>, JsonV)>) -> Seq<
    (Seq<char>, JsonV),
>
    decreases extra.len(),
{
    if extra.len() == 0 {
        o
    } else {
        json::set_field(merged(o, extra.drop_last()), extra.last().0, extra.last().1)
    }
}

/// The members of a JSON log line.
pub open spec fn line_fields(ts: Seq<char>, level: Seq<char>, event: Seq<char>, fields: JsonV) -> Seq<
    (Seq<char>, JsonV),
> {
    let base = merged(
        Seq::empty(),
        seq![
            ("ts"@, JsonV::Str(ts)),
            ("level"@, JsonV::Str(level)),
            ("event"@, JsonV::Str(event)),
        ],
    );
    match fields {
        JsonV::Obj(m) => merged(base, m),
        JsonV::Null => base,
        _ => json::set_field(base, "msg"@, fields),
    }
}

/// A value in a text log line: a string as it is, anything else as JSON.
pub open spec fn plain(v: JsonV) -> Seq<char> {
    match v {
        JsonV::Str(s) => s,
        _ => json::json_text(v),
    }
}

pub open spec fn pairs_text(m: Seq<(Seq<char>, JsonV)>) -> Seq<char>
    decreases m.len(),
{
    if m.len() == 0 {
        Seq::empty()
    } else {
        pairs_text(m.drop_last()) + seq![' '] + m.last().0 + seq!['='] + plain(m.last().1)
    }
}

/// A log line.
pub open spec fn line_text(
    format: Format,
    ms: int,
    level: Seq<char>,
    event: Seq<char>,
    fields: JsonV,
) -> Seq<char> {
    let ts = iso_text(ms);
    match format {
        Format::Json => json::json_text(JsonV::Obj(line_fields(ts, level, event, fields))),
        Format::Text => ts + seq![' '] + text::uppercase(level) + seq![' '] + event + match fields {
            JsonV::Obj(m) => pairs_text(m),
            JsonV::Null => Seq::empty(),
            _ => " msg="@ + json::json_text(fields),
        },
    }
}

fn put_text(o: &mut Vec<(String, Json)>, k: &str, s: &str)
    ensures
        json::fields_view(final(o)@) == json::set_field(
            json::fields_view(old(o)@),
            k@,
            JsonV::Str(s@),
        ),
{
    put_field(o, k.to_owned(), Json::Str(s.to_owned()));
}

/// One log line, without the line feed: an event at a point in time with its
/// fields. Fields that are no object stand under "msg".
pub fn event(format: Format, ms: i64, level: &str, ev: &str, fields: &Json) -> (res: String)
    ensures
        res@ == line_text(format, ms as int, level@, ev@, fields@),
{
    let ts = iso8601(ms);
    proof {
        json::lemma_json_view(*fields);
    }
    match format {
        Format::Json => {
            let mut o: Vec<(String, Json)> = Vec::new();
            assert(json::fields_view(o@) =~= Seq::empty());
            put_text(&mut o, "ts", ts.as_str());
            put_text(&mut o, "level", level);
            put_text(&mut o, "event", ev);
            proof {
                let three = seq![
                    ("ts"@, JsonV::Str(ts@)),
                    ("level"@, JsonV::Str(level@)),
                    ("event"@, JsonV::Str(ev@)),
                ];
                assert(three.drop_last() =~= seq![
                    ("ts"@, JsonV::Str(ts@)),
                    ("level"@, JsonV::Str(level@)),
                ]);
                assert(three.drop_last().drop_last() =~= seq![("ts"@, JsonV::Str(ts@))]);
                assert(three.drop_last().drop_last().drop_last() =~= Seq::empty());
                reveal_with_fuel(merged, 4);
                assert(json::fields_view(o@) == merged(Seq::empty(), three));
            }
            let ghost base = json::fields_view(o@);
            match fields {
                Json::Obj(m) => {
                    let ghost all = json::fields_view(m@);
                    let mut i: usize = 0;
                    assert(all.take(0) =~= Seq::empty());
                    while i < m.len()
                        invariant
                            i <= m@.len(),
                            all == json::fields_view(m@),
                            json::fields_view(o@) == merged(base, all.take(i as int)),
                        decreases m@.len() - i,
                    {
                        assert(all.take(i + 1).drop_last() =~= all.take(i as int));
                        assert(all.take(i + 1).last() == all[i as int]);
                        put_field(&mut o, m[i].0.clone(), m[i].1.copy());
                        i += 1;
                    }
                    assert(all.take(all.len() as int) =~= all);
                },
                Json::Null => {},
                other => {
                    put_field(&mut o, "msg".to_owned(), other.copy());
                },
            }
            let doc = Json::Obj(o);
            proof {
                json::lemma_json_view(doc);
            }
            doc.text()
        },
        Format::Text => {
            let up = level.to_uppercase();
            let mut s = ts;
            s.push(' ');
            s.append(up.as_str());
            s.push(' ');
            s.append(ev);
            let ghost head = s@;
            assert(head =~= iso_text(ms as int) + seq![' '] + text::uppercase(level@) + seq![' ']
                + ev@);
            match fields {
                Json::Obj(m) => {
                    let ghost all = json::fields_view(m@);
                    let mut i: usize = 0;
                    assert(all.take(0) =~= Seq::empty());
                    assert(s@ =~= head + pairs_text(all.take(0)));
                    while i < m.len()
                        invariant
                            i <= m@.len(),
                            all == json::fields_view(m@),
                            s@ == head + pairs_text(all.take(i as int)),
                        decreases m@.len() - i,
                    {
                        assert(all.take(i + 1).drop_last() =~= all.take(i as int));
                        assert(all.take(i + 1).last() == all[i as int]);
                        s.push(' ');
                        s.append(m[i].0.as_str());
                        s.push('=');
                        match &m[i].1 {
                            Json::Str(v) => s.append(v.as_str()),
                            other => other.write(&mut s),
                        }
                        assert(s@ =~= head + pairs_text(all.take(i + 1)));
                        i += 1;
                    }
                    assert(all.take(all.len() as int) =~= all);
                },
                Json::Null => {
                    assert(s@ =~= head + Seq::<char>::empty());
                },
                other => {
                    s.append(" msg=");
                    other.write(&mut s);
                    assert(s@ =~= head + (" msg="@ + json::json_text(fields@)));
                },
            }
            s
        },
    }
}

} // verus!
