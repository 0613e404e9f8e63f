use hurdat2::pipeline::data::characters;
use hurdat2::pipeline::text::{char_is_space, read_digits, read_integer, split_line, trim_bounds};

fn text_of(chars: &[char], bounds: (usize, usize)) -> String {
    chars[bounds.0..bounds.1].iter().collect()
}

#[test]
fn white_space_is_what_the_standard_library_takes_for_it() {
    for code in 0..=0x10FFFFu32 {
        if let Some(c) = char::from_u32(code) {
            assert_eq!(char_is_space(c), c.is_whitespace(), "U+{:04X}", code);
        }
    }
}

#[test]
fn characters_are_those_of_the_text() {
    assert_eq!(characters(""), Vec::<char>::new());
    assert_eq!(characters("a,é\u{1F300}"), vec!['a', ',', 'é', '\u{1F300}']);
}

#[test]
fn trimming_takes_white_space_off_both_ends() {
    let samples = [
        "", " ", "   ", "a", " a", "a ", "  a b  ", "\t\r\n x \u{a0}\u{3000}", "\u{2003}été\u{2028}",
        " , ",
    ];
    for sample in samples {
        let chars = characters(sample);
        let bounds = trim_bounds(&chars, 0, chars.len());
        assert_eq!(text_of(&chars, bounds), sample.trim(), "{:?}", sample);
    }
}

#[test]
fn trimming_stays_within_its_stretch() {
    let chars = characters("ab  cd  ef");
    assert_eq!(trim_bounds(&chars, 2, 8), (4, 6));
    assert_eq!(trim_bounds(&chars, 2, 4), (4, 4));
    assert_eq!(trim_bounds(&chars, 3, 3), (3, 3));
    assert_eq!(trim_bounds(&chars, 0, 10), (0, 10));
}

#[test]
fn line_is_split_at_every_comma() {
    let samples = [
        "",
        ",",
        ",,",
        "a",
        "a,b",
        "a,b,",
        ",a",
        " a , b ,c ",
        "AL092004,           FRANCES,     72,",
        "19940701, 0000,  , TD, 21.5N,  85.6W,  30, 1008, -999",
        "  ,\t, \u{a0} ",
    ];
    for sample in samples {
        let chars = characters(sample);
        let found: Vec<String> =
            split_line(&chars).into_iter().map(|bounds| text_of(&chars, bounds)).collect();
        let expected: Vec<String> = sample.split(",").map(|s| s.trim().to_string()).collect();
        assert_eq!(found, expected, "{:?}", sample);
    }
}

#[test]
fn digits_are_read_as_a_number() {
    let chars = characters("x0042y18446744073709551615");
    assert_eq!(read_digits(&chars, 1, 5), Some(42));
    assert_eq!(read_digits(&chars, 1, 1), Some(0));
    assert_eq!(read_digits(&chars, 0, 5), None);
    assert_eq!(read_digits(&chars, 1, 6), None);
    assert_eq!(read_digits(&chars, 6, 26), Some(u64::MAX));
    let chars = characters("18446744073709551616");
    assert_eq!(read_digits(&chars, 0, 20), None);
    assert_eq!(read_digits(&chars, 0, 19), Some(1844674407370955161));
    let chars = characters("000000000000000000000000000007");
    assert_eq!(read_digits(&chars, 0, 30), Some(7));
    let chars = characters("١٢٣");
    assert_eq!(read_digits(&chars, 0, 3), None);
}

#[test]
fn integer_is_read_from_a_stretch() {
    let chars = characters("a-12b+7c");
    assert_eq!(read_integer(&chars, 1, 4), Some(-12));
    assert_eq!(read_integer(&chars, 2, 4), Some(12));
    assert_eq!(read_integer(&chars, 5, 7), Some(7));
    assert_eq!(read_integer(&chars, 1, 2), None);
    assert_eq!(read_integer(&chars, 0, 4), None);
    assert_eq!(read_integer(&chars, 3, 3), None);
}
