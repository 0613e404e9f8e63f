use hurdat2::startup::{env_args, parse_year, StartupError, FIRST_YEAR, LAST_YEAR};

fn args(text: &[&str]) -> Vec<String> {
    text.iter().map(|arg| arg.to_string()).collect()
}

#[test]
fn year_in_range_is_read() {
    assert_eq!(parse_year(&"1851".to_string()), Ok(1851));
    assert_eq!(parse_year(&"2021".to_string()), Ok(2021));
    assert_eq!(parse_year(&"+2000".to_string()), Ok(2000));
    assert_eq!(FIRST_YEAR, 1851);
    assert_eq!(LAST_YEAR, 2021);
}

#[test]
fn year_out_of_range_is_refused() {
    for text in ["1850", "2022", "0", "-2000", "", "two thousand", "2000.0", " 2000"] {
        assert_eq!(parse_year(&text.to_string()), Err(StartupError::InvalidYear), "{}", text);
    }
}

#[test]
fn three_arguments_are_file_and_years() {
    assert_eq!(
        env_args(&args(&["hurdat2", "hurdat2.txt", "2000", "2010"])),
        Ok(("hurdat2.txt".to_string(), 2000, 2010))
    );
    assert_eq!(
        env_args(&args(&["hurdat2", "data", "2010", "2000"])),
        Ok(("data".to_string(), 2010, 2000))
    );
}

#[test]
fn other_numbers_of_arguments_are_refused() {
    assert_eq!(env_args(&args(&[])), Err(StartupError::WrongArgumentCount));
    assert_eq!(env_args(&args(&["hurdat2"])), Err(StartupError::WrongArgumentCount));
    assert_eq!(env_args(&args(&["hurdat2", "file", "2000"])), Err(StartupError::WrongArgumentCount));
    assert_eq!(
        env_args(&args(&["hurdat2", "file", "2000", "2010", "more"])),
        Err(StartupError::WrongArgumentCount)
    );
    assert_eq!(env_args(&args(&["hurdat2", "file", "x", "y", "z"])), Err(StartupError::WrongArgumentCount));
}

#[test]
fn arguments_with_a_bad_year_are_refused() {
    assert_eq!(env_args(&args(&["hurdat2", "file", "1850", "2010"])), Err(StartupError::InvalidYear));
    assert_eq!(env_args(&args(&["hurdat2", "file", "2000", "2022"])), Err(StartupError::InvalidYear));
    assert_eq!(env_args(&args(&["hurdat2", "file", "start", "end"])), Err(StartupError::InvalidYear));
}
