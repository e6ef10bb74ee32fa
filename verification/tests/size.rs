use random_gradient_generator::{ParseSizeError, Size};
use std::num::IntErrorKind;

/// The same reading with the number parser of the standard library.
fn by_std(text: &str) -> Result<Size, ParseSizeError> {
    let kind = |e: std::num::ParseIntError| match e.kind() {
        IntErrorKind::Empty => ParseSizeError::Empty,
        IntErrorKind::InvalidDigit => ParseSizeError::InvalidDigit,
        IntErrorKind::PosOverflow => ParseSizeError::PosOverflow,
        other => panic!("unexpected {other:?}"),
    };
    let mut dim = text.split('x');
    let width = dim.next().unwrap_or_default().parse().map_err(kind)?;
    let height = dim.next().unwrap_or_default().parse().map_err(kind)?;
    Ok(Size { width, height })
}

#[test]
fn sizes_are_read() {
    assert_eq!(Size::parse("512x256"), Ok(Size { width: 512, height: 256 }));
    assert_eq!("512x256".parse(), Ok(Size { width: 512, height: 256 }));
    assert_eq!(Size::parse("0x0"), Ok(Size { width: 0, height: 0 }));
    assert_eq!(Size::parse("+7x+9"), Ok(Size { width: 7, height: 9 }));
    assert_eq!(Size::parse("007x010"), Ok(Size { width: 7, height: 10 }));
    assert_eq!(
        Size::parse("4294967295x4294967295"),
        Ok(Size { width: u32::MAX, height: u32::MAX })
    );
    assert_eq!(Size::parse("000000000004294967295x1"), Ok(Size { width: u32::MAX, height: 1 }));
}

#[test]
fn what_follows_a_second_separator_is_ignored() {
    assert_eq!(Size::parse("1x2x3"), Ok(Size { width: 1, height: 2 }));
    assert_eq!(Size::parse("1x2x"), Ok(Size { width: 1, height: 2 }));
    assert_eq!(Size::parse("1x2xabc"), Ok(Size { width: 1, height: 2 }));
}

#[test]
fn missing_numbers() {
    assert_eq!(Size::parse(""), Err(ParseSizeError::Empty));
    assert_eq!(Size::parse("12"), Err(ParseSizeError::Empty));
    assert_eq!(Size::parse("12x"), Err(ParseSizeError::Empty));
    assert_eq!(Size::parse("x12"), Err(ParseSizeError::Empty));
    assert_eq!(Size::parse("x"), Err(ParseSizeError::Empty));
    assert_eq!(Size::parse("1xx2"), Err(ParseSizeError::Empty));
}

#[test]
fn bad_digits() {
    assert_eq!(Size::parse("12 x3"), Err(ParseSizeError::InvalidDigit));
    assert_eq!(Size::parse("-1x3"), Err(ParseSizeError::InvalidDigit));
    assert_eq!(Size::parse("+x3"), Err(ParseSizeError::InvalidDigit));
    assert_eq!(Size::parse("-x3"), Err(ParseSizeError::InvalidDigit));
    assert_eq!(Size::parse("1x+"), Err(ParseSizeError::InvalidDigit));
    assert_eq!(Size::parse("1x++2"), Err(ParseSizeError::InvalidDigit));
    assert_eq!(Size::parse("1X2"), Err(ParseSizeError::InvalidDigit));
    assert_eq!(Size::parse("1.5x2"), Err(ParseSizeError::InvalidDigit));
    assert_eq!(Size::parse("١٢x3"), Err(ParseSizeError::InvalidDigit));
    assert_eq!(Size::parse("1×2"), Err(ParseSizeError::InvalidDigit));
}

#[test]
fn numbers_too_large() {
    assert_eq!(Size::parse("4294967296x1"), Err(ParseSizeError::PosOverflow));
    assert_eq!(Size::parse("1x4294967296"), Err(ParseSizeError::PosOverflow));
    assert_eq!(Size::parse("99999999999999999999x1"), Err(ParseSizeError::PosOverflow));
    // the overflow comes before the bad digit is reached
    assert_eq!(Size::parse("99999999999ax1"), Err(ParseSizeError::PosOverflow));
    assert_eq!(Size::parse("9a9999999999x1"), Err(ParseSizeError::InvalidDigit));
}

#[test]
fn the_error_of_the_width_comes_first() {
    assert_eq!(Size::parse("ax4294967296"), Err(ParseSizeError::InvalidDigit));
    assert_eq!(Size::parse("4294967296xa"), Err(ParseSizeError::PosOverflow));
    assert_eq!(Size::parse("xa"), Err(ParseSizeError::Empty));
}

#[test]
fn reading_agrees_with_the_standard_parser() {
    let alphabet = ['0', '1', '9', 'x', '+', '-', ' ', 'a', '4', '2'];
    // every text of up to five characters of the alphabet
    let mut texts = vec![String::new()];
    let mut from = 0;
    for _ in 0..5 {
        let until = texts.len();
        for i in from..until {
            for c in alphabet {
                let mut t = texts[i].clone();
                t.push(c);
                texts.push(t);
            }
        }
        from = until;
    }
    assert_eq!(texts.len(), 111_111);
    for t in &texts {
        assert_eq!(Size::parse(t), by_std(t), "{t:?}");
    }
    for t in [
        "4294967295x0",
        "4294967296x0",
        "4294967300x0",
        "42949672950x0",
        "0x4294967295",
        "0x4294967299",
        "+4294967295x+4294967295",
        "+4294967296x1",
        "1x2x3x4",
        "12345678x123456789",
        "1234567890x1",
        "äx1",
        "1xä",
        "1\u{0}x2",
    ] {
        assert_eq!(Size::parse(t), by_std(t), "{t:?}");
    }
}

#[test]
fn long_texts_are_read() {
    let zeros = "0".repeat(200_000);
    assert_eq!(Size::parse(&format!("{zeros}12x{zeros}7")), Ok(Size { width: 12, height: 7 }));
    let nines = "9".repeat(200_000);
    assert_eq!(Size::parse(&format!("{nines}x1")), Err(ParseSizeError::PosOverflow));
    let letters = "a".repeat(200_000);
    assert_eq!(Size::parse(&letters), Err(ParseSizeError::InvalidDigit));
    assert_eq!(Size::parse(&format!("1x2x{letters}")), Ok(Size { width: 1, height: 2 }));
}

#[test]
fn bytes_are_read_as_the_text_is() {
    assert_eq!(Size::parse_bytes(b"640x480"), Ok(Size { width: 640, height: 480 }));
    assert_eq!(Size::parse_bytes(b"\xffx1"), Err(ParseSizeError::InvalidDigit));
    assert_eq!(Size::parse_bytes(b""), Err(ParseSizeError::Empty));
}

#[test]
fn sizes_are_written() {
    assert_eq!(Size { width: 512, height: 256 }.to_text(), "512x256");
    assert_eq!(Size { width: 0, height: 0 }.to_text(), "0x0");
    assert_eq!(Size { width: 10, height: 1000 }.to_text(), "10x1000");
    assert_eq!(Size { width: u32::MAX, height: 7 }.to_text(), "4294967295x7");
    assert_eq!(Size::default().to_text(), "0x0");
}

#[test]
fn a_written_size_is_read_back() {
    for width in [0u32, 1, 9, 10, 99, 100, 12345, 4_000_000_000, u32::MAX] {
        for height in [0u32, 5, 10, 1_000_000, u32::MAX] {
            let size = Size { width, height };
            assert_eq!(Size::parse(&size.to_text()), Ok(size));
        }
    }
}

#[test]
fn sizes_that_can_be_encoded() {
    assert!(Size { width: 0, height: 0 }.can_be_encoded());
    assert!(Size { width: 1920, height: 1080 }.can_be_encoded());
    assert!(Size { width: 16384, height: 16384 }.can_be_encoded());
    // (height + 1) * (4 * width + 4) + 54 is u32::MAX - 1 here, and 3 more there
    assert!(Size { width: 1_073_741_809, height: 0 }.can_be_encoded());
    assert!(!Size { width: 1_073_741_810, height: 0 }.can_be_encoded());
    assert!(Size { width: 0, height: 1_073_741_809 }.can_be_encoded());
    assert!(!Size { width: 0, height: 1_073_741_810 }.can_be_encoded());
    assert!(!Size { width: 0, height: u32::MAX }.can_be_encoded());
    assert!(!Size { width: 65536, height: 65536 }.can_be_encoded());
    assert!(!Size { width: u32::MAX, height: u32::MAX }.can_be_encoded());
    assert!(!Size { width: u32::MAX, height: 0 }.can_be_encoded());
}
