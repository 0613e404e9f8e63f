//! The records that flow through the pipeline, and their mathematical views.

use vstd::prelude::*;
use crate::pipeline::calendar::{civil_timestamp, is_civil_minute, utc_timestamp};
use crate::pipeline::text::{
    all_digits, decimal_value, first_index_of, integer_in_range, is_digit, lemma_all_digits_split,
    lemma_decimal_value_concat, lemma_decimal_value_of_zeros, lemma_first_index_of,
    pow10, read_digits, read_integer, read_short_number, split_line, trimmed_fields,
};

verus! {

/// Why a line of input was refused.
#[derive(Debug, Clone, Copy, PartialEq, Eq, Structural)]
pub enum ParseError {
    /// The line has fewer fields than its kind of line needs.
    MissingField,
    /// A field that should hold a number holds none, or one that is too large.
    InvalidNumber,
    /// The date and time are numbers, but of no minute of the calendar.
    InvalidDate,
    /// A position does not end in one of the letters N, S, E and W.
    InvalidDirection,
}

/// Position units in one degree: latitudes and longitudes are whole millionths
/// of a degree, north and east positive.
pub const UNITS_PER_DEGREE: i64 = 1_000_000;

/// One observation of a storm: when, where, and how strong.
#[derive(Debug, Clone, Copy, PartialEq, Eq, Structural)]
pub struct HurricanePathSnapshot {
    /// Seconds since 1970-01-01T00:00:00Z.
    pub datetime: i64,
    /// Millionths of a degree, north positive.
    pub latitude: i64,
    /// Millionths of a degree, east positive.
    pub longitude: i64,
    /// Knots.
    pub max_sustained_wind_speed: i64,
}

/// Everything recorded about one storm.
#[derive(Debug, PartialEq, Eq)]
pub struct HurricaneTrack {
    pub index: usize,
    pub name: String,
    pub path: Vec<HurricanePathSnapshot>,
}

/// What a [`HurricaneTrack`] is, as a value.
pub struct TrackView {
    pub index: usize,
    pub name: Seq<char>,
    pub path: Seq<HurricanePathSnapshot>,
}

impl View for HurricaneTrack {
    type V = TrackView;

    open spec fn view(&self) -> TrackView {
        TrackView { index: self.index, name: self.name@, path: self.path@ }
    }
}

/// A track that entered the region, with the instant it did so and the
/// first and last observations made inside.
#[derive(Debug, PartialEq, Eq)]
pub struct HurricaneLandfallAnalysis {
    pub index: usize,
    pub name: String,
    pub path: Vec<HurricanePathSnapshot>,
    /// Seconds since 1970-01-01T00:00:00Z.
    pub landfall: i64,
    pub first_datetime_over_florida: i64,
    pub last_datetime_over_florida: i64,
}

/// What a [`HurricaneLandfallAnalysis`] is, as a value.
pub struct LandfallAnalysisView {
    pub index: usize,
    pub name: Seq<char>,
    pub path: Seq<HurricanePathSnapshot>,
    pub landfall: i64,
    pub first_datetime_over_florida: i64,
    pub last_datetime_over_florida: i64,
}

impl View for HurricaneLandfallAnalysis {
    type V = LandfallAnalysisView;

    open spec fn view(&self) -> LandfallAnalysisView {
        LandfallAnalysisView {
            index: self.index,
            name: self.name@,
            path: self.path@,
            landfall: self.landfall,
            first_datetime_over_florida: self.first_datetime_over_florida,
            last_datetime_over_florida: self.last_datetime_over_florida,
        }
    }
}

/// The line of the final table for one storm.
#[derive(Debug, PartialEq, Eq)]
pub struct HurricaneFinalAnalysis {
    pub name: String,
    /// Seconds since 1970-01-01T00:00:00Z.
    pub landfall: i64,
    /// Knots.
    pub max_sustained_wind_speed: i64,
    /// Hundredths of a knot.
    pub max_gust_wind_speed: i128,
}

/// What a [`HurricaneFinalAnalysis`] is, as a value.
pub struct FinalAnalysisView {
    pub name: Seq<char>,
    pub landfall: i64,
    pub max_sustained_wind_speed: i64,
    pub max_gust_wind_speed: i128,
}

impl View for HurricaneFinalAnalysis {
    type V = FinalAnalysisView;

    open spec fn view(&self) -> FinalAnalysisView {
        FinalAnalysisView {
            name: self.name@,
            landfall: self.landfall,
            max_sustained_wind_speed: self.max_sustained_wind_speed,
            max_gust_wind_speed: self.max_gust_wind_speed,
        }
    }
}

impl HurricaneTrack {
    /// A track with no observations yet.
    pub fn new(index: usize, name: String) -> (track: HurricaneTrack)
        ensures
            track.index == index,
            track.name == name,
            track.path@ == Seq::<HurricanePathSnapshot>::empty(),
    {
        HurricaneTrack { index, name, path: Vec::new() }
    }
}

/// The characters of a text, one by one.
pub fn characters(s: &str) -> (text: Vec<char>)
    ensures
        text@ == s@,
{
    let mut text: Vec<char> = Vec::new();
    for c in it: s.chars()
        invariant
            text@ == it.seq().take(it.index()),
    {
        text.push(c);
    }
    text
}

/// Reads a whole text as a signed decimal integer: digits, with or without
/// one `+` or `-` before them, and nothing else.
pub fn parse_int(s: &str) -> (number: Result<i64, ParseError>)
    ensures
        number == match integer_in_range(s@) {
            Some(n) => Ok::<i64, ParseError>(n),
            None => Err(ParseError::InvalidNumber),
        },
{
    let text = characters(s);
    proof {
        assert(text@.subrange(0, text@.len() as int) == text@);
    }
    match read_integer(&text, 0, text.len()) {
        Some(n) => Ok(n),
        None => Err(ParseError::InvalidNumber),
    }
}

/// The digits kept after the decimal point of a position.
pub const FRACTION_DIGITS: usize = 6;

/// A run of `n` zeros.
pub open spec fn zeros(n: int) -> Seq<char> {
    Seq::new(n as nat, |i: int| '0')
}

/// The digits before the decimal point of a number, or all of it if it has
/// no point.
pub open spec fn whole_part(s: Seq<char>) -> Seq<char> {
    s.take(first_index_of(s, '.'))
}

/// The digits after the decimal point of a number, if it has one.
pub open spec fn fraction_part(s: Seq<char>) -> Seq<char> {
    let point = first_index_of(s, '.');
    if point < s.len() {
        s.skip(point + 1)
    } else {
        Seq::empty()
    }
}

/// The millionths that a decimal number amounts to.  It is written as digits,
/// or as digits, a point and digits, with at least one digit in all and at
/// most six after the point.
pub open spec fn millionths(s: Seq<char>) -> Option<nat> {
    let whole = whole_part(s);
    let fraction = fraction_part(s);
    if whole.len() + fraction.len() > 0 && all_digits(whole) && all_digits(fraction)
        && fraction.len() <= FRACTION_DIGITS {
        Some(
            decimal_value(whole) * (UNITS_PER_DEGREE as nat) + decimal_value(fraction) * pow10(
                (FRACTION_DIGITS - fraction.len()) as nat,
            ),
        )
    } else {
        None
    }
}

/// The millionths of a number are what its digits write once the point is
/// left out and zeros fill the places after it up to six.
proof fn lemma_millionths_as_digits(whole: Seq<char>, fraction: Seq<char>)
    requires
        all_digits(whole),
        all_digits(fraction),
        fraction.len() <= FRACTION_DIGITS,
    ensures
        decimal_value(whole + fraction + zeros(FRACTION_DIGITS - fraction.len()))
            == decimal_value(whole) * (UNITS_PER_DEGREE as nat) + decimal_value(fraction) * pow10(
            (FRACTION_DIGITS - fraction.len()) as nat,
        ),
{
    let padding = zeros(FRACTION_DIGITS - fraction.len());
    lemma_decimal_value_of_zeros(padding);
    lemma_decimal_value_concat(fraction, padding);
    assert forall|i: int| 0 <= i < (fraction + padding).len() implies is_digit(
        #[trigger] (fraction + padding)[i],
    ) by {
        if i < fraction.len() {
            assert((fraction + padding)[i] == fraction[i]);
        }
    }
    lemma_decimal_value_concat(whole, fraction + padding);
    assert(whole + fraction + padding == whole + (fraction + padding));
    assert(pow10(6) == 1_000_000) by {
        reveal_with_fuel(pow10, 7);
    }
}

/// The position that a text writes: a decimal number of degrees and then the
/// letter of a direction, of which `S` and `W` stand for the negative.
pub open spec fn coordinate(s: Seq<char>) -> Result<i64, ParseError> {
    if s.len() == 0 {
        Err(ParseError::InvalidNumber)
    } else {
        match millionths(s.drop_last()) {
            Some(magnitude) if magnitude <= i64::MAX => {
                if s.last() == 'N' || s.last() == 'E' {
                    Ok(magnitude as i64)
                } else if s.last() == 'S' || s.last() == 'W' {
                    Ok((-magnitude) as i64)
                } else {
                    Err(ParseError::InvalidDirection)
                }
            },
            _ => Err(ParseError::InvalidNumber),
        }
    }
}

/// Reads a stretch of text as a decimal number of millionths.
fn read_millionths(text: &Vec<char>, from: usize, to: usize) -> (number: Option<i64>)
    requires
        from <= to <= text.len(),
    ensures
        number == match millionths(text@.subrange(from as int, to as int)) {
            Some(magnitude) if magnitude <= i64::MAX => Some(magnitude as i64),
            _ => None::<i64>,
        },
{
    let ghost s = text@.subrange(from as int, to as int);
    let mut point: usize = from;
    while point < to && text[point] != '.'
        invariant
            from <= point <= to <= text.len(),
            forall|i: int| from <= i < point ==> text@[i] != '.',
        decreases to - point,
    {
        point += 1;
    }
    proof {
        lemma_first_index_of(s, '.', point - from);
    }
    let fraction_from: usize = if point < to {
        point + 1
    } else {
        to
    };
    let ghost whole = s.take(point - from);
    let ghost fraction = if point < to {
        s.skip(point - from + 1)
    } else {
        Seq::<char>::empty()
    };
    proof {
        assert(whole == text@.subrange(from as int, point as int));
        assert(fraction == text@.subrange(fraction_from as int, to as int));
    }
    if (point - from) + (to - fraction_from) == 0 || to - fraction_from > FRACTION_DIGITS {
        return None;
    }
    let mut digits: Vec<char> = Vec::new();
    let mut i: usize = from;
    while i < point
        invariant
            from <= i <= point <= text.len(),
            digits@ == text@.subrange(from as int, i as int),
        decreases point - i,
    {
        digits.push(text[i]);
        proof {
            assert(text@.subrange(from as int, i as int).push(text@[i as int]) == text@.subrange(
                from as int,
                i + 1,
            ));
        }
        i += 1;
    }
    i = fraction_from;
    while i < to
        invariant
            fraction_from <= i <= to <= text.len(),
            digits@ == whole + text@.subrange(fraction_from as int, i as int),
        decreases to - i,
    {
        digits.push(text[i]);
        proof {
            assert(text@.subrange(fraction_from as int, i as int).push(text@[i as int])
                == text@.subrange(fraction_from as int, i + 1));
            assert((whole + text@.subrange(fraction_from as int, i as int)).push(text@[i as int])
                == whole + text@.subrange(fraction_from as int, i + 1));
        }
        i += 1;
    }
    let mut padding: usize = to - fraction_from;
    while padding < FRACTION_DIGITS
        invariant
            to - fraction_from <= padding <= FRACTION_DIGITS,
            fraction.len() == to - fraction_from,
            digits@ == whole + fraction + zeros(padding - fraction.len()),
        decreases FRACTION_DIGITS - padding,
    {
        digits.push('0');
        proof {
            assert(zeros(padding - fraction.len()).push('0') == zeros(
                padding + 1 - fraction.len(),
            ));
            assert((whole + fraction + zeros(padding - fraction.len())).push('0') == whole
                + fraction + zeros(padding + 1 - fraction.len()));
        }
        padding += 1;
    }
    proof {
        let padded = whole + fraction + zeros(FRACTION_DIGITS - fraction.len());
        assert(digits@.subrange(0, digits@.len() as int) == padded);
        if all_digits(whole) && all_digits(fraction) {
            lemma_millionths_as_digits(whole, fraction);
            assert forall|j: int| 0 <= j < padded.len() implies is_digit(#[trigger] padded[j]) by {
                if j < whole.len() {
                    assert(padded[j] == whole[j]);
                } else if j < whole.len() + fraction.len() {
                    assert(padded[j] == fraction[j - whole.len()]);
                }
            }
        }
        if all_digits(padded) {
            assert forall|j: int| 0 <= j < whole.len() implies is_digit(#[trigger] whole[j]) by {
                assert(padded[j] == whole[j]);
            }
            assert forall|j: int| 0 <= j < fraction.len() implies is_digit(
                #[trigger] fraction[j],
            ) by {
                assert(padded[j + whole.len()] == fraction[j]);
            }
        }
    }
    match read_digits(&digits, 0, digits.len()) {
        Some(magnitude) if magnitude <= 0x7fff_ffff_ffff_ffff => Some(magnitude as i64),
        _ => None,
    }
}

/// Reads a stretch of text as a position.
fn read_coordinate(text: &Vec<char>, from: usize, to: usize) -> (position: Result<i64, ParseError>)
    requires
        from <= to <= text.len(),
    ensures
        position == coordinate(text@.subrange(from as int, to as int)),
{
    if from == to {
        return Err(ParseError::InvalidNumber);
    }
    let ghost s = text@.subrange(from as int, to as int);
    proof {
        assert(s.drop_last() == text@.subrange(from as int, to - 1));
        assert(s.last() == text@[to - 1]);
    }
    match read_millionths(text, from, to - 1) {
        None => Err(ParseError::InvalidNumber),
        Some(magnitude) => {
            let direction = text[to - 1];
            if direction == 'N' || direction == 'E' {
                Ok(magnitude)
            } else if direction == 'S' || direction == 'W' {
                Ok(-magnitude)
            } else {
                Err(ParseError::InvalidDirection)
            }
        },
    }
}

/// Reads a position such as `85.6W`, in millionths of a degree: degrees in
/// decimal, then `N` or `E` for a positive position, `S` or `W` for a negative
/// one.
pub fn parse_coordinate(s: &str) -> (position: Result<i64, ParseError>)
    ensures
        position == coordinate(s@),
{
    let text = characters(s);
    proof {
        assert(text@.subrange(0, text@.len() as int) == text@);
    }
    read_coordinate(&text, 0, text.len())
}

/// What is left to read of an observation made at a known instant: where the
/// storm was and how hard it blew.
pub open spec fn observation(
    datetime: i64,
    latitude: Seq<char>,
    longitude: Seq<char>,
    wind: Seq<char>,
) -> Result<HurricanePathSnapshot, ParseError> {
    match (coordinate(latitude), coordinate(longitude), integer_in_range(wind)) {
        (Err(e), _, _) => Err(e),
        (Ok(_), Err(e), _) => Err(e),
        (Ok(_), Ok(_), None) => Err(ParseError::InvalidNumber),
        (Ok(latitude), Ok(longitude), Some(max_sustained_wind_speed)) => Ok(
            HurricanePathSnapshot { datetime, latitude, longitude, max_sustained_wind_speed },
        ),
    }
}

/// The number that `width` digits write, from place `from` of a text on.
pub open spec fn number_at(s: Seq<char>, from: int, width: int) -> nat {
    decimal_value(s.subrange(from, from + width))
}

/// The date begins with eight digits and the time with four.
pub open spec fn is_timestamp(date: Seq<char>, time: Seq<char>) -> bool {
    &&& date.len() >= 8
    &&& all_digits(date.take(8))
    &&& time.len() >= 4
    &&& all_digits(time.take(4))
}

/// The observation that a line of data records.  Its fields stand between
/// commas, with white space around them that does not count: the date as
/// `YYYYMMDD`, the time as `HHMM`, two fields that are not read, latitude,
/// longitude and sustained wind; what follows is not read either.
pub open spec fn snapshot_of(line: Seq<char>) -> Result<HurricanePathSnapshot, ParseError> {
    let field = trimmed_fields(line);
    if field.len() < 7 {
        Err(ParseError::MissingField)
    } else if !is_timestamp(field[0], field[1]) {
        Err(ParseError::InvalidNumber)
    } else {
        let year = number_at(field[0], 0, 4);
        let month = number_at(field[0], 4, 2);
        let day = number_at(field[0], 6, 2);
        let hour = number_at(field[1], 0, 2);
        let minute = number_at(field[1], 2, 2);
        if !is_civil_minute(year as int, month as int, day as int, hour as int, minute as int) {
            Err(ParseError::InvalidDate)
        } else {
            observation(
                civil_timestamp(
                    year as i32,
                    month as u32,
                    day as u32,
                    hour as u32,
                    minute as u32,
                )->0,
                field[4],
                field[5],
                field[6],
            )
        }
    }
}

impl HurricanePathSnapshot {
    /// Reads where the storm was and how hard it blew, for an observation made
    /// at `datetime`, from three stretches of a line.
    pub fn observed_at(
        datetime: i64,
        text: &Vec<char>,
        latitude: (usize, usize),
        longitude: (usize, usize),
        wind: (usize, usize),
    ) -> (snapshot: Result<HurricanePathSnapshot, ParseError>)
        requires
            latitude.0 <= latitude.1 <= text.len(),
            longitude.0 <= longitude.1 <= text.len(),
            wind.0 <= wind.1 <= text.len(),
        ensures
            snapshot == observation(
                datetime,
                text@.subrange(latitude.0 as int, latitude.1 as int),
                text@.subrange(longitude.0 as int, longitude.1 as int),
                text@.subrange(wind.0 as int, wind.1 as int),
            ),
    {
        let latitude = match read_coordinate(text, latitude.0, latitude.1) {
            Ok(position) => position,
            Err(e) => {
                return Err(e);
            },
        };
        let longitude = match read_coordinate(text, longitude.0, longitude.1) {
            Ok(position) => position,
            Err(e) => {
                return Err(e);
            },
        };
        match read_integer(text, wind.0, wind.1) {
            Some(max_sustained_wind_speed) => Ok(
                HurricanePathSnapshot { datetime, latitude, longitude, max_sustained_wind_speed },
            ),
            None => Err(ParseError::InvalidNumber),
        }
    }

    /// Reads one line of data as an observation.
    ///
    /// The line is refused where it has fewer than seven fields, where its
    /// date, time, positions or wind are not written as they should be, and
    /// where the date and time are of no minute of the calendar.
    pub fn build_from_hurdat2(line: String) -> (snapshot: Result<HurricanePathSnapshot, ParseError>)
        ensures
            snapshot == snapshot_of(line@),
    {
        HurricanePathSnapshot::read(line.as_str())
    }

    /// Reads one line of data as an observation, as
    /// [`HurricanePathSnapshot::build_from_hurdat2`] does.
    pub fn read(line: &str) -> (snapshot: Result<HurricanePathSnapshot, ParseError>)
        ensures
            snapshot == snapshot_of(line@),
    {
        let text = characters(line);
        let field = split_line(&text);
        if field.len() < 7 {
            return Err(ParseError::MissingField);
        }
        let (date_from, date_to) = field[0];
        let (time_from, time_to) = field[1];
        let ghost date = text@.subrange(date_from as int, date_to as int);
        let ghost time = text@.subrange(time_from as int, time_to as int);
        if date_to - date_from < 8 || time_to - time_from < 4 {
            return Err(ParseError::InvalidNumber);
        }
        proof {
            assert(date.take(8) == text@.subrange(date_from as int, date_from + 8));
            assert(date.take(8).take(4) == text@.subrange(date_from as int, date_from + 4));
            assert(date.take(8).skip(4) == text@.subrange(date_from + 4, date_from + 8));
            assert(date.take(8).skip(4).take(2) == text@.subrange(date_from + 4, date_from + 6));
            assert(date.take(8).skip(4).skip(2) == text@.subrange(date_from + 6, date_from + 8));
            lemma_all_digits_split(date.take(8), 4);
            lemma_all_digits_split(date.take(8).skip(4), 2);
            assert(time.take(4) == text@.subrange(time_from as int, time_from + 4));
            assert(time.take(4).take(2) == text@.subrange(time_from as int, time_from + 2));
            assert(time.take(4).skip(2) == text@.subrange(time_from + 2, time_from + 4));
            lemma_all_digits_split(time.take(4), 2);
            assert(date.subrange(0, 4) == text@.subrange(date_from as int, date_from + 4));
            assert(date.subrange(4, 6) == text@.subrange(date_from + 4, date_from + 6));
            assert(date.subrange(6, 8) == text@.subrange(date_from + 6, date_from + 8));
            assert(time.subrange(0, 2) == text@.subrange(time_from as int, time_from + 2));
            assert(time.subrange(2, 4) == text@.subrange(time_from + 2, time_from + 4));
        }
        let year = read_short_number(&text, date_from, 4);
        let month = read_short_number(&text, date_from + 4, 2);
        let day = read_short_number(&text, date_from + 6, 2);
        let hour = read_short_number(&text, time_from, 2);
        let minute = read_short_number(&text, time_from + 2, 2);
        match (year, month, day, hour, minute) {
            (Some(year), Some(month), Some(day), Some(hour), Some(minute)) => {
                match utc_timestamp(year as i32, month, day, hour, minute) {
                    None => Err(ParseError::InvalidDate),
                    Some(datetime) => HurricanePathSnapshot::observed_at(
                        datetime,
                        &text,
                        field[4],
                        field[5],
                        field[6],
                    ),
                }
            },
            _ => Err(ParseError::InvalidNumber),
        }
    }
}

} // verus!
