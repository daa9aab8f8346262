use mkfile::size::{Error, Multiplier, NumberError, Size};

fn bytes(s: &str) -> u64 {
    Size::parse(s).unwrap().to_bytes()
}

#[test]
fn unit_words_in_any_case() {
    let table: [(&[&str], Multiplier, u64); 5] = [
        (&["b", "byte", "bytes"], Multiplier::Byte, 1),
        (&["k", "kb", "kilobyte", "kilobytes"], Multiplier::Kilobyte, 1024),
        (&["m", "mb", "megabyte", "megabytes"], Multiplier::Megabyte, 1024 * 1024),
        (&["g", "gb", "gigabyte", "gigabytes"], Multiplier::Gigabyte, 1024 * 1024 * 1024),
        (&["t", "tb", "terabyte", "terabytes"], Multiplier::Terabyte, 1024u64.pow(4)),
    ];
    for (words, unit, factor) in table.iter() {
        assert_eq!(unit.to_bytes(), *factor);
        for w in words.iter() {
            let upper = w.to_uppercase();
            let mut mixed = String::new();
            for (i, c) in w.chars().enumerate() {
                if i % 2 == 0 {
                    mixed.push(c.to_ascii_uppercase());
                } else {
                    mixed.push(c);
                }
            }
            for variant in [w.to_string(), upper, mixed] {
                assert_eq!(Multiplier::parse(&variant), Ok(*unit), "{}", variant);
                assert_eq!(variant.parse::<Multiplier>(), Ok(*unit));
                assert_eq!(bytes(&format!("1{}", variant)), *factor);
                assert_eq!(bytes(&format!("1 {}", variant)), *factor);
            }
        }
    }
}

#[test]
fn unit_sizes_are_powers_of_1024() {
    assert_eq!(Multiplier::Byte.to_bytes(), 1);
    assert_eq!(Multiplier::Kilobyte.to_bytes(), 1024);
    assert_eq!(Multiplier::Megabyte.to_bytes(), 1048576);
    assert_eq!(Multiplier::Gigabyte.to_bytes(), 1073741824);
    assert_eq!(Multiplier::Terabyte.to_bytes(), 1099511627776);
}

#[test]
fn unknown_unit_words() {
    assert_eq!(Multiplier::parse("kilo"), Err(Error::InvalidMultiplier));
    assert_eq!(Multiplier::parse(""), Err(Error::InvalidMultiplier));
    assert_eq!(Multiplier::parse("bb"), Err(Error::InvalidMultiplier));
    assert_eq!(Multiplier::parse("kbs"), Err(Error::InvalidMultiplier));
}

#[test]
fn kelvin_sign_lowers_to_k() {
    assert_eq!(Multiplier::parse("\u{212A}B"), Ok(Multiplier::Kilobyte));
}

#[test]
fn empty_input_is_missing_value() {
    assert_eq!(Size::parse("").unwrap_err(), Error::MissingValue);
}

#[test]
fn two_periods_in_compact_form() {
    assert_eq!(Size::parse("1.2.3kb").unwrap_err(), Error::DoublePeriod);
    assert_eq!(Size::parse("..").unwrap_err(), Error::DoublePeriod);
}

#[test]
fn two_periods_with_space_is_invalid_size() {
    assert_eq!(Size::parse("1.2.3 kb").unwrap_err(), Error::InvalidSize(NumberError::Invalid));
}

#[test]
fn unknown_unit_is_invalid_multiplier() {
    assert_eq!(Size::parse("5xy").unwrap_err(), Error::InvalidMultiplier);
    assert_eq!(Size::parse("5 xy").unwrap_err(), Error::InvalidMultiplier);
    assert_eq!(Size::parse("512").unwrap_err(), Error::InvalidMultiplier);
    assert_eq!(Size::parse("5 ").unwrap_err(), Error::InvalidMultiplier);
    assert_eq!(Size::parse("1e3kb").unwrap_err(), Error::InvalidMultiplier);
}

#[test]
fn bad_numbers_are_invalid_size() {
    assert_eq!(Size::parse("kb").unwrap_err(), Error::InvalidSize(NumberError::Empty));
    assert_eq!(Size::parse(" kb").unwrap_err(), Error::InvalidSize(NumberError::Empty));
    assert_eq!(Size::parse(".kb").unwrap_err(), Error::InvalidSize(NumberError::Invalid));
    assert_eq!(Size::parse("abc kb").unwrap_err(), Error::InvalidSize(NumberError::Invalid));
    assert_eq!(Size::parse("-5 kb").unwrap_err(), Error::InvalidSize(NumberError::Invalid));
    assert_eq!(Size::parse("+ kb").unwrap_err(), Error::InvalidSize(NumberError::Invalid));
    assert_eq!(Size::parse("-5kb").unwrap_err(), Error::InvalidSize(NumberError::Empty));
}

#[test]
fn number_is_checked_before_unit() {
    assert_eq!(Size::parse("x y").unwrap_err(), Error::InvalidSize(NumberError::Invalid));
}

#[test]
fn one_and_a_half_gigabytes() {
    assert_eq!(bytes("1.5 GB"), 1610612736);
}

#[test]
fn plain_bytes() {
    assert_eq!(bytes("2048b"), 2048);
}

#[test]
fn exact_conversions() {
    assert_eq!(bytes("10gb"), 10737418240);
    assert_eq!(bytes("1.5 MB"), 1572864);
    assert_eq!(bytes("0.5kb"), 512);
    assert_eq!(bytes(".5 kb"), 512);
    assert_eq!(bytes("5. kb"), 5120);
    assert_eq!(bytes("+3 b"), 3);
    assert_eq!(bytes("1.0001 kb"), 1024);
    assert_eq!(bytes("0.9 b"), 0);
    assert_eq!(bytes("007kb"), 7168);
    assert_eq!(bytes("0.001 kb"), 1);
}

#[test]
fn huge_sizes_saturate() {
    assert_eq!(bytes("99999999999999999999 tb"), u64::MAX);
    assert_eq!(bytes("16777216 tb"), u64::MAX);
    assert_eq!(bytes("16777215.999 tb"), 18446744072610039988);
}

#[test]
fn parsing_twice_gives_equal_sizes() {
    for s in ["1.5 GB", "2048b", "10gb", "1.2.3kb", "", "5xy"] {
        let a = Size::parse(s);
        let b = Size::parse(s);
        assert_eq!(a, b);
    }
    assert_eq!("7 mb".parse::<Size>().unwrap(), Size::parse("7mb").unwrap());
    let z = Size::parse("3.25 kb").unwrap();
    assert_eq!(z.clone(), z);
    assert_eq!(Size::parse("1.5kb").unwrap(), Size::parse("1.50kb").unwrap());
}

#[test]
fn lower_case_unit_words() {
    assert_eq!(Multiplier::from_lowercase("gigabytes"), Ok(Multiplier::Gigabyte));
    assert_eq!(Multiplier::from_lowercase("t"), Ok(Multiplier::Terabyte));
    assert_eq!(Multiplier::from_lowercase("bytes"), Ok(Multiplier::Byte));
    assert_eq!(Multiplier::from_lowercase("GB"), Err(Error::InvalidMultiplier));
    assert_eq!(Multiplier::from_lowercase("megabytess"), Err(Error::InvalidMultiplier));
}

#[test]
fn exponent_notation() {
    assert_eq!(bytes("1e3 kb"), 1024000);
    assert_eq!(bytes("1E3 kb"), 1024000);
    assert_eq!(bytes("2.5e-1 kb"), 256);
    assert_eq!(bytes("1e+2 b"), 100);
    assert_eq!(bytes("1.5e1 b"), 15);
    assert_eq!(bytes("12345e-2 b"), 123);
    assert_eq!(bytes("1e-3 kb"), 1);
    assert_eq!(bytes(".5e1 b"), 5);
    assert_eq!(bytes("1e-400 kb"), 0);
    assert_eq!(bytes("1e400 b"), u64::MAX);
    assert_eq!(bytes("1e19 b"), 10000000000000000000);
    assert_eq!(bytes("1e20 b"), u64::MAX);
    assert_eq!(bytes("0e99999999999999999999999 b"), 0);
    assert_eq!(bytes("5e99999999999999999999999 b"), u64::MAX);
    assert_eq!(bytes("5e-99999999999999999999999 tb"), 0);
}

#[test]
fn malformed_exponents_are_invalid_size() {
    for s in ["5e kb", "e5 kb", "5e+ kb", "5e1.5 kb", "5ee1 kb", "5e-x kb", ".e1 kb"] {
        assert_eq!(Size::parse(s).unwrap_err(), Error::InvalidSize(NumberError::Invalid), "{}", s);
    }
}

#[test]
fn equal_values_compare_equal() {
    let p = |s: &str| Size::parse(s).unwrap();
    assert_eq!(p("007kb"), p("7kb"));
    assert_eq!(p("1e3 kb"), p("1000kb"));
    assert_eq!(p("1.5 kb"), p("15e-1 kb"));
    assert_eq!(p("0 b"), p("0.000e5 b"));
    assert_eq!(p("0.0b"), p("00b"));
    assert_ne!(p("1 kb"), p("1024 b"));
    assert_ne!(p("1.5kb"), p("1.6kb"));
    assert_ne!(p("1kb"), p("10kb"));
    assert_ne!(p("0kb"), p("1e-9 kb"));
}
