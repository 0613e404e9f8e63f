//! What the program is asked to do: which file to read, and for which years.

use vstd::prelude::*;
use crate::pipeline::data::parse_int;
use crate::pipeline::text::integer_in_range;

verus! {

/// The first year that can be asked for.
pub const FIRST_YEAR: i64 = 1851;

/// The last year that can be asked for.
pub const LAST_YEAR: i64 = 2021;

/// Why the arguments of the program were refused.
#[derive(Debug, Clone, Copy, PartialEq, Eq, Structural)]
pub enum StartupError {
    /// There are not exactly three arguments after the name of the program.
    WrongArgumentCount,
    /// A year is not an integer from 1851 to 2021.
    InvalidYear,
}

/// The year that a text writes, if it writes one that can be asked for.
pub open spec fn year_of(s: Seq<char>) -> Option<i64> {
    match integer_in_range(s) {
        Some(year) if FIRST_YEAR <= year <= LAST_YEAR => Some(year),
        _ => None,
    }
}

/// Reads a year from 1851 to 2021.
pub fn parse_year(user_input: &String) -> (year: Result<i64, StartupError>)
    ensures
        year == match year_of(user_input@) {
            Some(y) => Ok::<i64, StartupError>(y),
            None => Err(StartupError::InvalidYear),
        },
{
    match parse_int(user_input.as_str()) {
        Ok(year) if FIRST_YEAR <= year && year <= LAST_YEAR => Ok(year),
        _ => Err(StartupError::InvalidYear),
    }
}

/// Reads the arguments of the program, the first of which is its own name:
/// the name of the file to read, the first year and the last year to report
/// on.
pub fn env_args(args: &Vec<String>) -> (asked: Result<(String, i64, i64), StartupError>)
    ensures
        asked is Ok <==> args@.len() == 4 && year_of(args@[2]@) is Some && year_of(args@[3]@)
            is Some,
        asked matches Ok((filename, start_year, end_year)) ==> filename@ == args@[1]@ && Some(
            start_year,
        ) == year_of(args@[2]@) && Some(end_year) == year_of(args@[3]@),
        asked matches Err(e) ==> (e == StartupError::WrongArgumentCount <==> args@.len() != 4),
{
    if args.len() != 4 {
        return Err(StartupError::WrongArgumentCount);
    }
    let filename = args[1].clone();
    let start_year = match parse_year(&args[2]) {
        Ok(year) => year,
        Err(e) => {
            return Err(e);
        },
    };
    let end_year = match parse_year(&args[3]) {
        Ok(year) => year,
        Err(e) => {
            return Err(e);
        },
    };
    Ok((filename, start_year, end_year))
}

} // verus!
