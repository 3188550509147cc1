//! RFC 3339 timestamps and intervals, as catalogue searches speak them.

use vstd::prelude::*;

use crate::error::Error;
use crate::text;
use crate::time;
use crate::window::TimeInterval;

verus! {

/// Milliseconds of a day.
pub const DAY_MS: i64 = 86_400_000;

/// A text cut at every occurrence of a character.
pub open spec fn split(s: Seq<char>, at: char) -> Seq<Seq<char>>
    decreases s.len(),
{
    if s.len() == 0 {
        seq![Seq::empty()]
    } else {
        let before = split(s.drop_last(), at);
        if s.last() == at {
            before.push(Seq::empty())
        } else {
            before.drop_last().push(before.last().push(s.last()))
        }
    }
}

/// The number that a nonempty run of digits stands for, where it is one of
/// 63 bits.
pub open spec fn number(s: Seq<char>) -> Option<int> {
    if text::all_digits(s) && text::number_of(s) <= i64::MAX {
        Some(text::number_of(s))
    } else {
        None
    }
}

/// Milliseconds of a fraction of a second: its first three digits, padded
/// with zeros.
pub open spec fn fraction_ms(s: Seq<char>) -> Option<int> {
    if text::all_digits(s) {
        Some(text::number_of((s + seq!['0', '0', '0']).take(3)))
    } else {
        None
    }
}

/// The place of a character in a text, the text's length where it is not
/// there.
pub open spec fn place_of(s: Seq<char>, c: char, from: int) -> int
    decreases s.len() - from,
{
    if from >= s.len() || s[from] == c {
        from
    } else {
        place_of(s, c, from + 1)
    }
}

/// Seconds and milliseconds, `ss` or `ss.fff`.
pub open spec fn seconds(s: Seq<char>) -> Option<(int, int)> {
    let dot = place_of(s, '.', 0);
    if dot >= s.len() {
        match number(s) {
            Some(sec) => Some((sec, 0)),
            None => None,
        }
    } else {
        match (number(s.take(dot)), fraction_ms(s.skip(dot + 1))) {
            (Some(sec), Some(ms)) => Some((sec, ms)),
            _ => None,
        }
    }
}

/// An offset `+hh:mm` or `-hh:mm` in milliseconds, without bounds on either
/// number.
pub open spec fn offset_ms(s: Seq<char>) -> Option<int> {
    let colon = place_of(s.skip(1), ':', 0);
    if s.len() == 0 || (s[0] != '+' && s[0] != '-') || colon >= s.skip(1).len() {
        None
    } else {
        match (number(s.skip(1).take(colon)), number(s.skip(1).skip(colon + 1))) {
            (Some(h), Some(m)) => Some(
                (if s[0] == '+' {
                    1int
                } else {
                    -1int
                }) * ((h * 3600 + m * 60) * 1000),
            ),
            _ => None,
        }
    }
}

/// A time of day `hh:mm:ss[.fff]` as hours, minutes, seconds, milliseconds.
pub open spec fn time_of_day(s: Seq<char>) -> Option<(int, int, int, int)> {
    let parts = split(s, ':');
    if parts.len() != 3 {
        None
    } else {
        match (number(parts[0]), number(parts[1]), seconds(parts[2])) {
            (Some(h), Some(m), Some((sec, ms))) => Some((h, m, sec, ms)),
            _ => None,
        }
    }
}

/// Epoch milliseconds of what stands behind the date.
pub open spec fn instant(y: int, mo: int, d: int, clock: Seq<char>, offset: int) -> Option<int> {
    match time_of_day(clock) {
        None => None,
        Some((h, mi, sec, ms)) => if !time::is_date(y, mo, d) || h > 23 || mi > 59 || sec > 60 {
            None
        } else {
            Some(
                (time::day_number(y, mo, d) * 86_400 + h * 3600 + mi * 60 + sec) * 1000 + ms
                    - offset,
            )
        },
    }
}

/// Epoch milliseconds of a timestamp: a date of ten characters, `T`, a
/// time, then `Z` or an offset of six characters.
pub open spec fn timestamp(s: Seq<char>) -> Option<int> {
    if s.len() < 12 || (s[10] != 'T' && s[10] != 't') {
        None
    } else {
        let date = split(s.take(10), '-');
        let rest = s.skip(11);
        if date.len() != 3 {
            None
        } else {
            match (number(date[0]), number(date[1]), number(date[2])) {
                (Some(y), Some(mo), Some(d)) => if rest.last() == 'Z' || rest.last() == 'z' {
                    instant(y, mo, d, rest.drop_last(), 0)
                } else if rest.len() < 6 {
                    None
                } else {
                    match offset_ms(rest.skip(rest.len() - 6)) {
                        None => None,
                        Some(offset) => instant(y, mo, d, rest.take(rest.len() - 6), offset),
                    }
                },
                _ => None,
            }
        }
    }
}

// Reading.

proof fn split_is_nonempty(s: Seq<char>, at: char)
    ensures
        split(s, at).len() > 0,
    decreases s.len(),
{
    if s.len() > 0 {
        split_is_nonempty(s.drop_last(), at);
    }
}

pub open spec fn words(v: Seq<Vec<char>>) -> Seq<Seq<char>> {
    Seq::new(v.len(), |i: int| v[i]@)
}

fn split_chars(s: &Vec<char>, from: usize, to: usize, at: char) -> (r: Vec<Vec<char>>)
    requires
        from <= to <= s@.len(),
    ensures
        words(r@) == split(s@.subrange(from as int, to as int), at),
{
    let mut done: Vec<Vec<char>> = Vec::new();
    let mut word: Vec<char> = Vec::new();
    let ghost all = s@.subrange(from as int, to as int);
    assert(words(done@).push(word@) =~= split(s@.subrange(from as int, from as int), at));
    for i in from..to
        invariant
            from <= to <= s@.len(),
            words(done@).push(word@) == split(s@.subrange(from as int, i as int), at),
    {
        let ghost before = s@.subrange(from as int, i as int);
        let ghost now = s@.subrange(from as int, i + 1);
        let ghost earlier = words(done@);
        let ghost last = word@;
        assert(now.drop_last() =~= before);
        assert(now.last() == s@[i as int]);
        let c: char = s[i];
        if c == at {
            done.push(word);
            word = Vec::new();
            assert(words(done@) =~= earlier.push(last));
        } else {
            word.push(c);
            assert(earlier.push(last).drop_last() =~= earlier);
        }
    }
    let ghost earlier = words(done@);
    let ghost last = word@;
    done.push(word);
    assert(words(done@) =~= earlier.push(last));
    done
}

fn read_number(s: &Vec<char>, from: usize, to: usize) -> (r: Option<i64>)
    requires
        from <= to <= s@.len(),
    ensures
        match number(s@.subrange(from as int, to as int)) {
            Some(n) => r matches Some(v) && v == n,
            None => r is None,
        },
{
    let ghost all = s@.subrange(from as int, to as int);
    if from == to {
        return None;
    }
    let mut n: i64 = 0;
    let mut fits: bool = true;
    assert(s@.subrange(from as int, from as int) =~= Seq::<char>::empty());
    for i in from..to
        invariant
            from <= to <= s@.len(),
            all == s@.subrange(from as int, to as int),
            n >= 0,
            forall|k: int| 0 <= k < i - from ==> text::is_digit(#[trigger] all[k]),
            fits ==> n == text::number_of(s@.subrange(from as int, i as int)),
            !fits ==> text::number_of(s@.subrange(from as int, i as int)) > i64::MAX,
    {
        let c: char = s[i];
        assert(all[i - from] == c);
        if c < '0' || c > '9' {
            assert(!text::is_digit(all[i - from]));
            return None;
        }
        let d: i64 = (c as u32 - 48) as i64;
        proof {
            let now = s@.subrange(from as int, i + 1);
            assert(now.drop_last() =~= s@.subrange(from as int, i as int));
            assert(now.last() == c);
        }
        if fits {
            if n > (i64::MAX - d) / 10 {
                fits = false;
            } else {
                n = n * 10 + d;
            }
        }
    }
    if fits {
        Some(n)
    } else {
        None
    }
}

fn read_word(w: &Vec<char>) -> (r: Option<i64>)
    ensures
        match number(w@) {
            Some(n) => r matches Some(v) && v == n,
            None => r is None,
        },
{
    let r = read_number(w, 0, w.len());
    assert(w@.subrange(0, w@.len() as int) =~= w@);
    r
}

pub fn find_char(s: &Vec<char>, c: char) -> (r: usize)
    ensures
        r == place_of(s@, c, 0),
        r <= s@.len(),
{
    let mut i: usize = 0;
    while i < s.len() && s[i] != c
        invariant
            i <= s@.len(),
            place_of(s@, c, 0) == place_of(s@, c, i as int),
        decreases s@.len() - i,
    {
        i = i + 1;
    }
    i
}

proof fn digits_stay_small(s: Seq<char>)
    requires
        forall|i: int| 0 <= i < s.len() ==> text::is_digit(#[trigger] s[i]),
        s.len() <= 4,
    ensures
        0 <= text::number_of(s) <= 9999,
{
    reveal_with_fuel(text::number_of, 5);
    let n = s.len();
    if n > 0 {
        assert(text::is_digit(s[n - 1]));
        let a = s.drop_last();
        if n > 1 {
            assert(text::is_digit(s[n - 2]));
            assert(a.last() == s[n - 2]);
            let b = a.drop_last();
            if n > 2 {
                assert(text::is_digit(s[n - 3]));
                assert(b.last() == s[n - 3]);
                if n > 3 {
                    assert(text::is_digit(s[n - 4]));
                    assert(b.drop_last().last() == s[n - 4]);
                }
            }
        }
    }
}

fn read_seconds(s: &Vec<char>) -> (r: Option<(i64, i64)>)
    ensures
        match seconds(s@) {
            Some((sec, ms)) => r matches Some((a, b)) && a == sec && b == ms && 0 <= ms <= 9999,
            None => r is None,
        },
{
    let dot: usize = find_char(s, '.');
    if dot >= s.len() {
        return match read_word(s) {
            Some(sec) => Some((sec, 0)),
            None => None,
        };
    }
    let ghost frac = s@.skip(dot + 1);
    assert(frac =~= s@.subrange(dot + 1, s@.len() as int));
    assert(s@.take(dot as int) =~= s@.subrange(0, dot as int));
    let sec = read_number(s, 0, dot);
    let mut milli: Vec<char> = Vec::new();
    let n: usize = s.len();
    if dot + 1 >= n {
        assert(frac.len() == 0);
        return None;
    }
    for i in dot + 1..n
        invariant
            n == s@.len(),
            dot + 1 < n,
            dot == place_of(s@, '.', 0),
            frac == s@.skip(dot + 1),
            forall|k: int| 0 <= k < i - dot - 1 ==> text::is_digit(#[trigger] frac[k]),
            milli@ == frac.take(if i - dot - 1 < 3 {
                i - dot - 1
            } else {
                3
            }),
    {
        let c: char = s[i];
        assert(frac[i - dot - 1] == c);
        if c < '0' || c > '9' {
            assert(!text::is_digit(frac[i - dot - 1]));
            return None;
        }
        if milli.len() < 3 {
            let ghost before = milli@;
            milli.push(c);
            assert(milli@ =~= frac.take(i - dot));
        }
    }
    assert(text::all_digits(frac));
    let ghost kept = milli@;
    while milli.len() < 3
        invariant
            kept.len() <= 3,
            kept.len() <= milli@.len() <= 3,
            milli@ == (kept + seq!['0', '0', '0']).take(milli@.len() as int),
            forall|k: int| 0 <= k < milli@.len() ==> text::is_digit(#[trigger] milli@[k]),
        decreases 3 - milli@.len(),
    {
        let ghost before = milli@;
        milli.push('0');
        assert(milli@ =~= (kept + seq!['0', '0', '0']).take(milli@.len() as int));
    }
    proof {
        let padded = (frac + seq!['0', '0', '0']).take(3);
        if frac.len() < 3 {
            assert(kept =~= frac);
        } else {
            assert(kept =~= frac.take(3));
        }
        assert(padded =~= milli@);
        digits_stay_small(milli@);
        assert(text::all_digits(milli@));
    }
    match (sec, read_word(&milli)) {
        (Some(a), Some(b)) => Some((a, b)),
        _ => None,
    }
}

fn sub_chars(s: &Vec<char>, from: usize, to: usize) -> (r: Vec<char>)
    requires
        from <= to <= s@.len(),
    ensures
        r@ == s@.subrange(from as int, to as int),
{
    let mut r: Vec<char> = Vec::new();
    for i in from..to
        invariant
            from <= to <= s@.len(),
            r@ == s@.subrange(from as int, i as int),
    {
        r.push(s[i]);
        assert(r@ =~= s@.subrange(from as int, i + 1));
    }
    r
}

fn read_offset(s: &Vec<char>) -> (r: Option<i64>)
    requires
        s@.len() == 6,
    ensures
        match offset_ms(s@) {
            Some(n) => r matches Some(v) && v == n && -1_000_000_000_000 <= n <= 1_000_000_000_000,
            None => r is None,
        },
{
    let sign: i64 = if s[0] == '+' {
        1
    } else if s[0] == '-' {
        -1
    } else {
        return None;
    };
    let rest = sub_chars(s, 1, 6);
    assert(rest@ =~= s@.skip(1));
    let colon: usize = find_char(&rest, ':');
    if colon >= rest.len() {
        return None;
    }
    let h = read_number(&rest, 0, colon);
    let m = read_number(&rest, colon + 1, rest.len());
    proof {
        assert(rest@.subrange(0, colon as int) =~= rest@.take(colon as int));
        assert(rest@.subrange(colon + 1, rest@.len() as int) =~= rest@.skip(colon + 1));
        if text::all_digits(rest@.take(colon as int)) {
            digits_stay_small(rest@.take(colon as int));
        }
        if text::all_digits(rest@.skip(colon + 1)) {
            digits_stay_small(rest@.skip(colon + 1));
        }
    }
    match (h, m) {
        (Some(h), Some(m)) => {
            let ms: i64 = (h * 3600 + m * 60) * 1000;
            Some(
                if sign == 1 {
                    ms
                } else {
                    -ms
                },
            )
        },
        _ => None,
    }
}

proof fn number_below_power(s: Seq<char>)
    requires
        forall|i: int| 0 <= i < s.len() ==> text::is_digit(#[trigger] s[i]),
    ensures
        0 <= text::number_of(s) < vstd::arithmetic::power::pow(10, s.len()),
    decreases s.len(),
{
    reveal(vstd::arithmetic::power::pow);
    if s.len() > 0 {
        let rest = s.drop_last();
        assert forall|i: int| 0 <= i < rest.len() implies text::is_digit(#[trigger] rest[i]) by {
            assert(text::is_digit(s[i]));
        }
        number_below_power(rest);
        assert(text::is_digit(s[s.len() - 1]));
    }
}

/// The characters of words together.
pub open spec fn letters(ws: Seq<Seq<char>>) -> nat
    decreases ws.len(),
{
    if ws.len() == 0 {
        0
    } else {
        letters(ws.drop_last()) + ws.last().len()
    }
}

proof fn words_make_up_the_text(s: Seq<char>, at: char)
    ensures
        letters(split(s, at)) + split(s, at).len() == s.len() + 1,
    decreases s.len(),
{
    if s.len() > 0 {
        words_make_up_the_text(s.drop_last(), at);
        split_is_nonempty(s.drop_last(), at);
        let before = split(s.drop_last(), at);
        if s.last() == at {
            assert(before.push(Seq::empty()).drop_last() =~= before);
        } else {
            let longer = before.drop_last().push(before.last().push(s.last()));
            assert(longer.drop_last() =~= before.drop_last());
        }
    } else {
        assert(split(s, at).drop_last() =~= Seq::<Seq<char>>::empty());
        reveal_with_fuel(letters, 2);
    }
}

/// A date of ten characters has a year of at most six.
proof fn years_are_short(day: Seq<char>)
    requires
        day.len() == 10,
        split(day, '-').len() == 3,
        number(split(day, '-')[0]) is Some,
        number(split(day, '-')[1]) is Some,
        number(split(day, '-')[2]) is Some,
    ensures
        0 <= number(split(day, '-')[0])->0 <= 999_999,
{
    let ws = split(day, '-');
    words_make_up_the_text(day, '-');
    let two = ws.drop_last();
    let one = two.drop_last();
    assert(two.last() == ws[1]);
    assert(one.last() == ws[0]);
    reveal_with_fuel(letters, 4);
    number_below_power(ws[0]);
    vstd::arithmetic::power::lemma_pow_increases(10, ws[0].len(), 6);
    reveal_with_fuel(vstd::arithmetic::power::pow, 7);
}

fn read_instant(
    y: i64,
    mo: i64,
    d: i64,
    clock: &Vec<char>,
    offset: i64,
) -> (r: Option<i64>)
    requires
        0 <= y <= 999_999,
        0 <= mo,
        0 <= d,
        -1_000_000_000_000 <= offset <= 1_000_000_000_000,
    ensures
        match instant(y as int, mo as int, d as int, clock@, offset as int) {
            Some(n) => r matches Some(v) && v == n,
            None => r is None,
        },
{
    let parts = split_chars(clock, 0, clock.len(), ':');
    assert(clock@.subrange(0, clock@.len() as int) =~= clock@);
    let ghost model = split(clock@, ':');
    if parts.len() != 3 {
        return None;
    }
    assert(words(parts@)[0] == parts@[0]@);
    assert(words(parts@)[1] == parts@[1]@);
    assert(words(parts@)[2] == parts@[2]@);
    let h: i64 = match read_word(&parts[0]) {
        Some(v) => v,
        None => {
            return None;
        },
    };
    let mi: i64 = match read_word(&parts[1]) {
        Some(v) => v,
        None => {
            return None;
        },
    };
    let (sec, ms) = match read_seconds(&parts[2]) {
        Some(v) => v,
        None => {
            return None;
        },
    };
    if mo < 1 || mo > 12 || d < 1 || d > time::days_in_month(y, mo) || h > 23 || mi > 59 || sec
        > 60 {
        return None;
    }
    proof {
        day_bounds(y as int, mo as int, d as int);
        number_is_positive(model[0]);
        number_is_positive(model[1]);
    }
    let sec: i64 = sec;
    let ms: i64 = ms;
    assert(sec >= 0) by {
        seconds_are_positive(model[2]);
    }
    Some((time::days_from_civil(y, mo, d) * 86_400 + h * 3600 + mi * 60 + sec) * 1000 + ms - offset)
}

proof fn number_is_positive(s: Seq<char>)
    ensures
        number(s) matches Some(n) ==> n >= 0,
{
    if text::all_digits(s) {
        number_below_power(s);
    }
}

proof fn seconds_are_positive(s: Seq<char>)
    ensures
        seconds(s) matches Some((sec, _)) ==> sec >= 0,
{
    number_is_positive(s);
    number_is_positive(s.take(place_of(s, '.', 0)));
}

proof fn day_bounds(y: int, m: int, d: int)
    requires
        0 <= y <= 999_999,
        time::is_date(y, m, d),
    ensures
        -1_000_000 <= time::day_number(y, m, d) <= 400_000_000,
{
    reveal_with_fuel(time::days_before_month, 14);
}

/// Epoch milliseconds of a timestamp.
pub fn parse_ms(s: &str) -> (r: Option<i64>)
    ensures
        match timestamp(s@) {
            Some(n) => r matches Some(v) && v == n,
            None => r is None,
        },
{
    let cs = text::chars_of(s);
    let n: usize = cs.len();
    if n < 12 || (cs[10] != 'T' && cs[10] != 't') {
        return None;
    }
    let date = split_chars(&cs, 0, 10, '-');
    let ghost day = s@.take(10);
    assert(cs@.subrange(0, 10) =~= day);
    if date.len() != 3 {
        return None;
    }
    assert(words(date@)[0] == date@[0]@);
    assert(words(date@)[1] == date@[1]@);
    assert(words(date@)[2] == date@[2]@);
    let y: i64 = match read_word(&date[0]) {
        Some(v) => v,
        None => {
            return None;
        },
    };
    let mo: i64 = match read_word(&date[1]) {
        Some(v) => v,
        None => {
            return None;
        },
    };
    let d: i64 = match read_word(&date[2]) {
        Some(v) => v,
        None => {
            return None;
        },
    };
    proof {
        years_are_short(day);
        number_is_positive(split(day, '-')[1]);
        number_is_positive(split(day, '-')[2]);
    }
    let ghost rest = s@.skip(11);
    assert(rest.last() == cs@[n - 1]);
    let last: char = cs[n - 1];
    if last == 'Z' || last == 'z' {
        let clock = sub_chars(&cs, 11, n - 1);
        assert(clock@ =~= rest.drop_last());
        read_instant(y, mo, d, &clock, 0)
    } else {
        if n - 11 < 6 {
            return None;
        }
        let tail = sub_chars(&cs, n - 6, n);
        assert(tail@ =~= rest.skip(rest.len() - 6));
        match read_offset(&tail) {
            None => None,
            Some(offset) => {
                let clock = sub_chars(&cs, 11, n - 6);
                assert(clock@ =~= rest.take(rest.len() - 6));
                read_instant(y, mo, d, &clock, offset)
            },
        }
    }
}

/// Epoch milliseconds of a timestamp.
pub fn parse_rfc3339(s: &str) -> (r: Result<i64, Error>)
    ensures
        match timestamp(s@) {
            Some(n) => r matches Ok(v) && v == n,
            None => r matches Err(Error::Source(m)) && m@ == "not an rfc 3339 timestamp: "@ + s@,
        },
{
    match parse_ms(s) {
        Some(v) => Ok(v),
        None => Err(Error::Source(text::joined("not an rfc 3339 timestamp: ", s))),
    }
}

// Writing.

/// The date of a day number.
pub open spec fn date_of(days: int) -> (int, int, int) {
    choose|t: (int, int, int)|
        time::is_date(t.0, t.1, t.2) && #[trigger] time::day_number(t.0, t.1, t.2) == days
}

/// A year of at least four characters, the sign among them.
pub open spec fn year_text(y: int) -> Seq<char> {
    if y < 0 {
        seq!['-'] + text::zero_filled((-y) as nat, 3)
    } else {
        text::zero_filled(y as nat, 4)
    }
}

/// A date as `yyyy-mm-dd`.
pub open spec fn date_text(y: int, m: int, d: int) -> Seq<char> {
    year_text(y) + seq!['-'] + text::padded(m as nat, 2) + seq!['-'] + text::padded(d as nat, 2)
}

/// A time of day as `hh:mm:ss`, with milliseconds only where there are any.
pub open spec fn clock_text(ms: int) -> Seq<char> {
    let s = ms / 1000;
    let whole = text::padded((s / 3600) as nat, 2) + seq![':'] + text::padded(
        (s / 60 % 60) as nat,
        2,
    ) + seq![':'] + text::padded((s % 60) as nat, 2);
    if ms % 1000 == 0 {
        whole
    } else {
        whole + seq!['.'] + text::padded((ms % 1000) as nat, 3)
    }
}

/// A timestamp in UTC.
pub open spec fn timestamp_text(ms: int) -> Seq<char> {
    let (y, m, d) = date_of(ms / 86_400_000);
    date_text(y, m, d) + seq!['T'] + clock_text(ms % 86_400_000) + seq!['Z']
}

/// Epoch milliseconds as a timestamp in UTC.
pub fn format_rfc3339(ms: i64) -> (r: String)
    ensures
        r@ == timestamp_text(ms as int),
{
    let days: i64 = time::floor_div(ms, DAY_MS);
    let (y, m, d) = time::civil_from_days(days);
    let of_day: i64 = time::floor_mod(ms, DAY_MS);
    proof {
        let t = date_of(ms as int / 86_400_000);
        assert(time::day_number(y as int, m as int, d as int) == days);
        let u = (y as int, m as int, d as int);
        assert(time::is_date(u.0, u.1, u.2) && time::day_number(u.0, u.1, u.2) == days);
        time::day_numbers_differ(t.0, t.1, t.2, y as int, m as int, d as int);
        year_bounds(y as int, m as int, d as int);
        reveal_strlit("-");
        reveal_strlit("T");
        reveal_strlit(":");
        reveal_strlit(".");
        reveal_strlit("Z");
    }
    let s: i64 = of_day / 1000;
    let milli: i64 = of_day % 1000;
    let mut r = if y < 0 {
        text::joined("-", text::zero_filled_text((-y) as u64, 3).as_str())
    } else {
        text::zero_filled_text(y as u64, 4)
    };
    assert(r@ =~= year_text(y as int));
    r.append("-");
    r.append(text::padded_text(m as u64, 2).as_str());
    r.append("-");
    r.append(text::padded_text(d as u64, 2).as_str());
    assert(r@ =~= date_text(y as int, m as int, d as int));
    r.append("T");
    let ghost head = r@;
    r.append(text::padded_text((s / 3600) as u64, 2).as_str());
    r.append(":");
    r.append(text::padded_text((s / 60 % 60) as u64, 2).as_str());
    r.append(":");
    r.append(text::padded_text((s % 60) as u64, 2).as_str());
    if milli != 0 {
        r.append(".");
        r.append(text::padded_text(milli as u64, 3).as_str());
    }
    assert(r@ =~= head + clock_text(of_day as int));
    r.append("Z");
    assert(r@ =~= timestamp_text(ms as int));
    r
}

proof fn year_bounds(y: int, m: int, d: int)
    requires
        time::is_date(y, m, d),
        -200_000_000_000 <= time::day_number(y, m, d) <= 200_000_000_000,
    ensures
        -1_000_000_000 <= y <= 1_000_000_000,
{
    reveal_with_fuel(time::days_before_month, 14);
}

/// A text without a character is one word.
proof fn no_cut(s: Seq<char>, at: char)
    requires
        forall|i: int| 0 <= i < s.len() ==> #[trigger] s[i] != at,
    ensures
        split(s, at) == seq![s],
    decreases s.len(),
{
    if s.len() > 0 {
        assert forall|i: int| 0 <= i < s.drop_last().len() implies #[trigger] s.drop_last()[i]
            != at by {
            assert(s[i] != at);
        }
        no_cut(s.drop_last(), at);
        assert(s[s.len() - 1] != at);
        assert(seq![s.drop_last()].drop_last() =~= Seq::<Seq<char>>::empty());
        assert(s.drop_last().push(s.last()) =~= s);
        assert(Seq::<Seq<char>>::empty().push(s) =~= seq![s]);
    } else {
        assert(s =~= Seq::empty());
    }
}

/// Words on both sides of a cut.
proof fn cut_joins(a: Seq<char>, at: char, b: Seq<char>)
    ensures
        split(a + seq![at] + b, at) == split(a, at) + split(b, at),
    decreases b.len(),
{
    let s = a + seq![at] + b;
    split_is_nonempty(a, at);
    split_is_nonempty(b, at);
    if b.len() == 0 {
        assert(s.drop_last() =~= a);
        assert(b =~= Seq::empty());
        assert(split(a, at).push(Seq::empty()) =~= split(a, at) + split(b, at));
    } else {
        let c = b.drop_last();
        split_is_nonempty(c, at);
        cut_joins(a, at, c);
        assert(s.drop_last() =~= a + seq![at] + c);
        let before = split(a, at) + split(c, at);
        if b.last() == at {
            assert(before.push(Seq::empty()) =~= split(a, at) + split(c, at).push(Seq::empty()));
        } else {
            assert(before.last() == split(c, at).last());
            assert(before.drop_last() =~= split(a, at) + split(c, at).drop_last());
            assert(before.drop_last().push(before.last().push(b.last())) =~= split(a, at) + split(
                c,
                at,
            ).drop_last().push(split(c, at).last().push(b.last())));
        }
    }
}

/// Three digit runs between two separators are three words.
proof fn three_words(a: Seq<char>, b: Seq<char>, c: Seq<char>, at: char)
    requires
        forall|i: int| 0 <= i < a.len() ==> #[trigger] a[i] != at,
        forall|i: int| 0 <= i < b.len() ==> #[trigger] b[i] != at,
        forall|i: int| 0 <= i < c.len() ==> #[trigger] c[i] != at,
    ensures
        split(a + seq![at] + b + seq![at] + c, at) == seq![a, b, c],
{
    no_cut(a, at);
    no_cut(b, at);
    no_cut(c, at);
    cut_joins(a, at, b);
    cut_joins(a + seq![at] + b, at, c);
    assert(seq![a] + seq![b] + seq![c] =~= seq![a, b, c]);
}

proof fn digits_are_not(n: nat, width: nat, at: char)
    requires
        !text::is_digit(at),
    ensures
        forall|i: int|
            0 <= i < text::padded(n, width).len() ==> #[trigger] text::padded(n, width)[i] != at,
{
    text::padded_reads_back(n, width);
    assert forall|i: int| 0 <= i < text::padded(n, width).len() implies #[trigger] text::padded(
        n,
        width,
    )[i] != at by {
        assert(text::is_digit(text::padded(n, width)[i]));
    }
}

proof fn padded_number(n: nat, width: nat)
    requires
        1 <= width <= 4,
        n < vstd::arithmetic::power::pow(10, width),
    ensures
        number(text::padded(n, width)) == Some(n as int),
        text::padded(n, width).len() == width,
{
    text::padded_reads_back(n, width);
    vstd::arithmetic::div_mod::lemma_small_mod(n, vstd::arithmetic::power::pow(10, width) as nat);
    vstd::arithmetic::power::lemma_pow_increases(10, width, 4);
    reveal_with_fuel(vstd::arithmetic::power::pow, 5);
}

proof fn powers_of_ten()
    ensures
        vstd::arithmetic::power::pow(10, 2) == 100,
        vstd::arithmetic::power::pow(10, 3) == 1000,
        vstd::arithmetic::power::pow(10, 4) == 10_000,
{
    reveal_with_fuel(vstd::arithmetic::power::pow, 5);
}

proof fn not_there(s: Seq<char>, c: char, from: int)
    requires
        0 <= from <= s.len(),
        forall|i: int| 0 <= i < s.len() ==> #[trigger] s[i] != c,
    ensures
        place_of(s, c, from) == s.len(),
    decreases s.len() - from,
{
    if from < s.len() {
        not_there(s, c, from + 1);
    }
}

proof fn there_first(a: Seq<char>, c: char, b: Seq<char>, from: int)
    requires
        0 <= from <= a.len(),
        forall|i: int| 0 <= i < a.len() ==> #[trigger] a[i] != c,
    ensures
        place_of(a + seq![c] + b, c, from) == a.len(),
    decreases a.len() - from,
{
    let s = a + seq![c] + b;
    if from < a.len() {
        assert(s[from] == a[from]);
        there_first(a, c, b, from + 1);
    } else {
        assert(s[a.len() as int] == c);
    }
}

/// A time of day reads back.
proof fn clock_reads_back(ms: int)
    requires
        0 <= ms < 86_400_000,
    ensures
        time_of_day(clock_text(ms)) == Some(
            (ms / 1000 / 3600, ms / 1000 / 60 % 60, ms / 1000 % 60, ms % 1000),
        ),
{
    let s = ms / 1000;
    let h = (s / 3600) as nat;
    let m = (s / 60 % 60) as nat;
    let sec = (s % 60) as nat;
    let milli = (ms % 1000) as nat;
    powers_of_ten();
    padded_number(h, 2);
    padded_number(m, 2);
    padded_number(sec, 2);
    padded_number(milli, 3);
    digits_are_not(h, 2, ':');
    digits_are_not(m, 2, ':');
    digits_are_not(sec, 2, ':');
    digits_are_not(milli, 3, ':');
    digits_are_not(sec, 2, '.');
    let a = text::padded(h, 2);
    let b = text::padded(m, 2);
    let c = text::padded(sec, 2);
    let f = text::padded(milli, 3);
    if ms % 1000 == 0 {
        three_words(a, b, c, ':');
        not_there(c, '.', 0);
    } else {
        let tail = c + seq!['.'] + f;
        assert forall|i: int| 0 <= i < tail.len() implies #[trigger] tail[i] != ':' by {
            if i < c.len() {
                assert(tail[i] == c[i]);
            } else if i > c.len() {
                assert(tail[i] == f[i - c.len() - 1]);
            }
        }
        three_words(a, b, tail, ':');
        assert(clock_text(ms) =~= a + seq![':'] + b + seq![':'] + tail);
        there_first(c, '.', f, 0);
        assert(tail.take(2) =~= c);
        assert(tail.skip(3) =~= f);
        assert((f + seq!['0', '0', '0']).take(3) =~= f);
    }
}

/// A date of the years 0 to 9999 reads back.
proof fn date_reads_back(y: int, m: int, d: int)
    requires
        0 <= y <= 9999,
        time::is_date(y, m, d),
    ensures
        date_text(y, m, d).len() == 10,
        split(date_text(y, m, d), '-').len() == 3,
        number(split(date_text(y, m, d), '-')[0]) == Some(y),
        number(split(date_text(y, m, d), '-')[1]) == Some(m),
        number(split(date_text(y, m, d), '-')[2]) == Some(d),
{
    powers_of_ten();
    text::filling_fits(y as nat, 4);
    padded_number(y as nat, 4);
    padded_number(m as nat, 2);
    padded_number(d as nat, 2);
    digits_are_not(y as nat, 4, '-');
    digits_are_not(m as nat, 2, '-');
    digits_are_not(d as nat, 2, '-');
    three_words(
        text::padded(y as nat, 4),
        text::padded(m as nat, 2),
        text::padded(d as nat, 2),
        '-',
    );
}

/// Days, hours, minutes, seconds and milliseconds make up an instant.
proof fn instant_adds_up(ms: int)
    ensures
        ({
            let t = ms % 86_400_000;
            ((ms / 86_400_000) * 86_400 + t / 1000 / 3600 * 3600 + t / 1000 / 60 % 60 * 60 + t
                / 1000 % 60) * 1000 + t % 1000 == ms
        }),
        0 <= ms % 86_400_000 < 86_400_000,
        ms % 86_400_000 / 1000 / 3600 <= 23,
{
}

proof fn parts_read_back(date: Seq<char>, clock: Seq<char>, y: int, m: int, d: int)
    requires
        date.len() == 10,
        clock.len() > 0,
        split(date, '-').len() == 3,
        number(split(date, '-')[0]) == Some(y),
        number(split(date, '-')[1]) == Some(m),
        number(split(date, '-')[2]) == Some(d),
    ensures
        timestamp(date + seq!['T'] + clock + seq!['Z']) == instant(y, m, d, clock, 0),
{
    let s = date + seq!['T'] + clock + seq!['Z'];
    assert(s.take(10) =~= date);
    assert(s[10] == 'T');
    let rest = s.skip(11);
    assert(rest =~= clock + seq!['Z']);
    assert(rest.drop_last() =~= clock);
}

/// What is written of an instant of the years 0 to 9999 reads back as that
/// instant. Later years take more than four characters, earlier ones a
/// sign, and neither is read.
pub proof fn timestamps_read_back(ms: int)
    requires
        0 <= date_of(ms / 86_400_000).0 <= 9999,
    ensures
        timestamp(timestamp_text(ms)) == Some(ms),
{
    let days = ms / 86_400_000;
    let (y, m, d) = date_of(days);
    date_exists(days);
    let t = ms % 86_400_000;
    let clock = clock_text(t);
    instant_adds_up(ms);
    date_reads_back(y, m, d);
    clock_reads_back(t);
    parts_read_back(date_text(y, m, d), clock, y, m, d);
}

/// Every day has a date.
proof fn date_exists(days: int)
    ensures
        ({
            let t = date_of(days);
            time::is_date(t.0, t.1, t.2) && time::day_number(t.0, t.1, t.2) == days
        }),
{
    let t = time::date_of_day(days);
    assert(time::is_date(t.0, t.1, t.2) && time::day_number(t.0, t.1, t.2) == days);
}

// Intervals.

/// An interval `start/end` that does not end before it starts.
pub open spec fn interval(s: Seq<char>) -> Option<(int, int)> {
    let slash = place_of(s, '/', 0);
    if slash >= s.len() {
        None
    } else {
        match (timestamp(s.take(slash)), timestamp(s.skip(slash + 1))) {
            (Some(a), Some(b)) => if b < a {
                None
            } else {
                Some((a, b))
            },
            _ => None,
        }
    }
}

/// Why a text is no interval.
pub open spec fn interval_fault(s: Seq<char>) -> Seq<char> {
    let slash = place_of(s, '/', 0);
    if slash >= s.len() {
        "not an rfc 3339 interval: "@ + s
    } else if timestamp(s.take(slash)) is None {
        "not an rfc 3339 timestamp: "@ + s.take(slash)
    } else if timestamp(s.skip(slash + 1)) is None {
        "not an rfc 3339 timestamp: "@ + s.skip(slash + 1)
    } else {
        "time interval "@ + s + " ends before it starts"@
    }
}

impl TimeInterval {
    /// An interval `start/end`, as catalogue searches write it.
    pub fn parse(s: &str) -> (r: Result<TimeInterval, Error>)
        ensures
            match interval(s@) {
                Some((a, b)) => r matches Ok(t) && t.start_ms == a && t.end_ms == b,
                None => r matches Err(Error::Source(m)) && m@ == interval_fault(s@),
            },
    {
        let cs = text::chars_of(s);
        let slash: usize = find_char(&cs, '/');
        if slash >= cs.len() {
            return Err(Error::Source(text::joined("not an rfc 3339 interval: ", s)));
        }
        let first = s.substring_char(0, slash);
        let second = s.substring_char(slash + 1, cs.len());
        assert(first@ =~= s@.take(slash as int));
        assert(second@ =~= s@.skip(slash + 1));
        let start: i64 = match parse_rfc3339(first) {
            Ok(v) => v,
            Err(e) => {
                return Err(e);
            },
        };
        let end: i64 = match parse_rfc3339(second) {
            Ok(v) => v,
            Err(e) => {
                return Err(e);
            },
        };
        if end < start {
            let mut m = text::joined("time interval ", s);
            m.append(" ends before it starts");
            return Err(Error::Source(m));
        }
        Ok(TimeInterval::new(start, end))
    }

    /// The interval as a search sends it. Searches compare it closed at
    /// both ends.
    pub fn to_stac_datetime(&self) -> (r: String)
        ensures
            r@ == timestamp_text(self.start_ms as int) + "/"@ + timestamp_text(self.end_ms as int),
    {
        let mut r = format_rfc3339(self.start_ms);
        r.append("/");
        r.append(format_rfc3339(self.end_ms).as_str());
        r
    }
}

/// A text without a character.
pub open spec fn lacks(s: Seq<char>, c: char) -> bool {
    forall|i: int| 0 <= i < s.len() ==> #[trigger] s[i] != c
}

proof fn joined_lacks(a: Seq<char>, b: Seq<char>, c: char)
    requires
        lacks(a, c),
        lacks(b, c),
    ensures
        lacks(a + b, c),
{
    assert forall|i: int| 0 <= i < (a + b).len() implies #[trigger] (a + b)[i] != c by {
        if i < a.len() {
            assert((a + b)[i] == a[i]);
        } else {
            assert((a + b)[i] == b[i - a.len()]);
        }
    }
}

proof fn filled_lacks(n: nat, width: nat, c: char)
    requires
        !text::is_digit(c),
    ensures
        lacks(text::zero_filled(n, width), c),
    decreases n, width,
{
    if !(n < 10 && width <= 1) {
        filled_lacks(
            n / 10,
            if width == 0 {
                0
            } else {
                (width - 1) as nat
            },
            c,
        );
    }
}

proof fn timestamps_lack_slashes(ms: int)
    requires
        0 <= date_of(ms / 86_400_000).0,
    ensures
        lacks(timestamp_text(ms), '/'),
{
    let (y, m, d) = date_of(ms / 86_400_000);
    let t = ms % 86_400_000;
    let s = t / 1000;
    let c = '/';
    filled_lacks(y as nat, 4, c);
    digits_are_not(m as nat, 2, c);
    digits_are_not(d as nat, 2, c);
    digits_are_not((s / 3600) as nat, 2, c);
    digits_are_not((s / 60 % 60) as nat, 2, c);
    digits_are_not((s % 60) as nat, 2, c);
    digits_are_not((t % 1000) as nat, 3, c);
    let a1 = year_text(y) + seq!['-'];
    let a2 = a1 + text::padded(m as nat, 2);
    let a3 = a2 + seq!['-'];
    joined_lacks(year_text(y), seq!['-'], c);
    joined_lacks(a1, text::padded(m as nat, 2), c);
    joined_lacks(a2, seq!['-'], c);
    joined_lacks(a3, text::padded(d as nat, 2), c);
    let date = date_text(y, m, d);
    let h = text::padded((s / 3600) as nat, 2);
    let b1 = h + seq![':'];
    let b2 = b1 + text::padded((s / 60 % 60) as nat, 2);
    let b3 = b2 + seq![':'];
    let b4 = b3 + text::padded((s % 60) as nat, 2);
    joined_lacks(h, seq![':'], c);
    joined_lacks(b1, text::padded((s / 60 % 60) as nat, 2), c);
    joined_lacks(b2, seq![':'], c);
    joined_lacks(b3, text::padded((s % 60) as nat, 2), c);
    joined_lacks(b4, seq!['.'], c);
    joined_lacks(b4 + seq!['.'], text::padded((t % 1000) as nat, 3), c);
    let clock = clock_text(t);
    assert(lacks(clock, c));
    joined_lacks(date, seq!['T'], c);
    joined_lacks(date + seq!['T'], clock, c);
    joined_lacks(date + seq!['T'] + clock, seq!['Z'], c);
}

/// What is sent of an interval of the years 0 to 9999 reads back as that
/// interval.
pub proof fn intervals_read_back(start: int, end: int)
    requires
        start <= end,
        0 <= date_of(start / 86_400_000).0 <= 9999,
        0 <= date_of(end / 86_400_000).0 <= 9999,
    ensures
        interval(timestamp_text(start) + "/"@ + timestamp_text(end)) == Some((start, end)),
{
    let a = timestamp_text(start);
    let b = timestamp_text(end);
    reveal_strlit("/");
    assert("/"@ =~= seq!['/']);
    timestamps_lack_slashes(start);
    there_first(a, '/', b, 0);
    let s = a + seq!['/'] + b;
    assert(s.take(a.len() as int) =~= a);
    assert(s.skip(a.len() as int + 1) =~= b);
    timestamps_read_back(start);
    timestamps_read_back(end);
}

// What is read.

/// A date and a time of day, each number with as many digits as it takes.
pub open spec fn written_date(y: nat, m: nat, d: nat) -> Seq<char> {
    text::padded(y, 4) + seq!['-'] + text::padded(m, 2) + seq!['-'] + text::padded(d, 2)
}

pub open spec fn written_time(h: nat, mi: nat, s: nat) -> Seq<char> {
    text::padded(h, 2) + seq![':'] + text::padded(mi, 2) + seq![':'] + text::padded(s, 2)
}

/// The milliseconds from the start of 1970 to a date and a time of day.
pub open spec fn milliseconds(y: int, m: int, d: int, h: int, mi: int, s: int) -> int {
    (((time::day_number(y, m, d) * 24 + h) * 60 + mi) * 60 + s) * 1000
}

proof fn date_reads(y: nat, m: nat, d: nat)
    requires
        y <= 9999,
        m <= 99,
        d <= 99,
    ensures
        written_date(y, m, d).len() == 10,
        split(written_date(y, m, d), '-').len() == 3,
        number(split(written_date(y, m, d), '-')[0]) == Some(y as int),
        number(split(written_date(y, m, d), '-')[1]) == Some(m as int),
        number(split(written_date(y, m, d), '-')[2]) == Some(d as int),
{
    powers_of_ten();
    padded_number(y, 4);
    padded_number(m, 2);
    padded_number(d, 2);
    digits_are_not(y, 4, '-');
    digits_are_not(m, 2, '-');
    digits_are_not(d, 2, '-');
    three_words(text::padded(y, 4), text::padded(m, 2), text::padded(d, 2), '-');
}

proof fn time_reads(h: nat, mi: nat, s: nat)
    requires
        h <= 99,
        mi <= 99,
        s <= 99,
    ensures
        written_time(h, mi, s).len() == 8,
        time_of_day(written_time(h, mi, s)) == Some((h as int, mi as int, s as int, 0int)),
{
    powers_of_ten();
    padded_number(h, 2);
    padded_number(mi, 2);
    padded_number(s, 2);
    digits_are_not(h, 2, ':');
    digits_are_not(mi, 2, ':');
    digits_are_not(s, 2, ':');
    digits_are_not(s, 2, '.');
    three_words(text::padded(h, 2), text::padded(mi, 2), text::padded(s, 2), ':');
    not_there(text::padded(s, 2), '.', 0);
}

/// A timestamp in UTC is read year, month and day, hour, minute and second,
/// where they are those of a date and of a time of day; a minute may have a
/// leap second. Any other is refused.
pub proof fn a_timestamp_is_its_date_and_time(y: nat, m: nat, d: nat, h: nat, mi: nat, s: nat)
    requires
        y <= 9999,
        m <= 99,
        d <= 99,
        h <= 99,
        mi <= 99,
        s <= 99,
    ensures
        timestamp(written_date(y, m, d) + seq!['T'] + written_time(h, mi, s) + seq!['Z']) == (
        if 1 <= m <= 12 && 1 <= d <= time::month_days(y as int, m as int) && h <= 23 && mi <= 59
            && s <= 60 {
            Some(milliseconds(y as int, m as int, d as int, h as int, mi as int, s as int))
        } else {
            None
        }),
{
    date_reads(y, m, d);
    time_reads(h, mi, s);
    parts_read_back(
        written_date(y, m, d),
        written_time(h, mi, s),
        y as int,
        m as int,
        d as int,
    );
}

/// A timestamp with an offset is as much earlier than the same time in UTC
/// as the offset is ahead of it, and as much later as it is behind.
pub proof fn an_offset_is_taken_off(
    y: nat,
    m: nat,
    d: nat,
    h: nat,
    mi: nat,
    s: nat,
    ahead: bool,
    oh: nat,
    om: nat,
)
    requires
        y <= 9999,
        time::is_date(y as int, m as int, d as int),
        h <= 23,
        mi <= 59,
        s <= 60,
        oh <= 99,
        om <= 99,
    ensures
        ({
            let sign = if ahead {
                '+'
            } else {
                '-'
            };
            let utc = milliseconds(y as int, m as int, d as int, h as int, mi as int, s as int);
            let offset = (oh * 60 + om) * 60_000;
            timestamp(
                written_date(y, m, d) + seq!['T'] + written_time(h, mi, s) + (seq![sign]
                    + text::padded(oh, 2) + seq![':'] + text::padded(om, 2)),
            ) == Some(
                if ahead {
                    utc - offset
                } else {
                    utc + offset
                },
            )
        }),
{
    date_reads(y, m, d);
    time_reads(h, mi, s);
    powers_of_ten();
    padded_number(oh, 2);
    padded_number(om, 2);
    digits_are_not(oh, 2, ':');
    let sign = if ahead {
        '+'
    } else {
        '-'
    };
    let date = written_date(y, m, d);
    let clock = written_time(h, mi, s);
    let hh = text::padded(oh, 2);
    let mm = text::padded(om, 2);
    let tail = seq![sign] + hh + seq![':'] + mm;
    let whole = date + seq!['T'] + clock + tail;
    assert(whole.take(10) =~= date);
    assert(whole[10] == 'T');
    let rest = whole.skip(11);
    assert(rest =~= clock + tail);
    assert(tail.len() == 6);
    assert(rest.skip(rest.len() - 6) =~= tail);
    assert(rest.take(rest.len() - 6) =~= clock);
    assert(rest.last() == mm.last());
    text::padded_reads_back(om, 2);
    assert(text::is_digit(mm[1]));
    assert(tail[0] == sign);
    assert(tail.skip(1) =~= hh + seq![':'] + mm);
    there_first(hh, ':', mm, 0);
    assert(tail.skip(1).take(2) =~= hh);
    assert(tail.skip(1).skip(3) =~= mm);
    assert(offset_ms(tail) == Some(
        (if ahead {
            1int
        } else {
            -1int
        }) * ((oh * 3600 + om * 60) * 1000),
    ));
}

/// A fraction of a second is read in tenths, hundredths and thousandths, and
/// what is finer is left out.
pub proof fn a_fraction_is_read_in_thousandths(a: char, b: char, c: char, more: Seq<char>)
    requires
        text::is_digit(a),
        text::is_digit(b),
        text::is_digit(c),
        forall|i: int| 0 <= i < more.len() ==> text::is_digit(#[trigger] more[i]),
    ensures
        fraction_ms(seq![a]) == Some(100 * (a as int - 48)),
        fraction_ms(seq![a, b]) == Some(100 * (a as int - 48) + 10 * (b as int - 48)),
        fraction_ms(seq![a, b, c] + more) == Some(
            100 * (a as int - 48) + 10 * (b as int - 48) + (c as int - 48),
        ),
{
    three_digits(a, '0', '0');
    three_digits(a, b, '0');
    three_digits(a, b, c);
    let zeros = seq!['0', '0', '0'];
    assert((seq![a] + zeros).take(3) =~= seq![a, '0', '0']);
    assert((seq![a, b] + zeros).take(3) =~= seq![a, b, '0']);
    assert((seq![a, b, c] + more + zeros).take(3) =~= seq![a, b, c]);
    assert(text::all_digits(seq![a]));
    assert(text::all_digits(seq![a, b]));
    let long = seq![a, b, c] + more;
    assert forall|i: int| 0 <= i < long.len() implies text::is_digit(#[trigger] long[i]) by {
        if i >= 3 {
            assert(long[i] == more[i - 3]);
        }
    }
}

proof fn three_digits(a: char, b: char, c: char)
    ensures
        text::number_of(seq![a, b, c]) == 100 * (a as int - 48) + 10 * (b as int - 48) + (c as int
            - 48),
{
    assert(seq![a, b, c].drop_last() =~= seq![a, b]);
    assert(seq![a, b].drop_last() =~= seq![a]);
    assert(text::number_of(seq![a].drop_last()) == 0);
    assert(seq![a].last() == a);
    assert(text::number_of(seq![a]) == a as int - 48);
    assert(text::number_of(seq![a, b]) == (a as int - 48) * 10 + (b as int - 48));
}

/// An interval is its start and its end, around one stroke, and its end is
/// not before its start.
pub proof fn an_interval_is_its_two_ends(a: Seq<char>, b: Seq<char>)
    requires
        forall|i: int| 0 <= i < a.len() ==> #[trigger] a[i] != '/',
    ensures
        interval(a + seq!['/'] + b) == (match (timestamp(a), timestamp(b)) {
            (Some(x), Some(y)) => if x <= y {
                Some((x, y))
            } else {
                None
            },
            _ => None,
        }),
{
    let s = a + seq!['/'] + b;
    there_first(a, '/', b, 0);
    assert(s.take(a.len() as int) =~= a);
    assert(s.skip(a.len() as int + 1) =~= b);
}

} // verus!
