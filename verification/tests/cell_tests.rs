use bf_interpreter::arguments::Feature;
use bf_interpreter::cell::Cell;
use bf_interpreter::error::InterpreterErrorKind;

#[test]
fn test_increment_u8_no_revers() {
    let mut cell = Cell::default_cell(&vec![]);
    cell.increment(true).unwrap();
    assert_eq!(cell, Cell::Byte(1));

    for _ in 0..254 {
        cell.increment(true).unwrap();
    }
    assert_eq!(cell, Cell::Byte(255));

    assert_eq!(
        cell.increment(true).unwrap_err(),
        InterpreterErrorKind::ValueOutOfBounds.to_error()
    );
    assert_eq!(cell, Cell::Byte(255));
}

#[test]
fn test_increment_u32_no_revers() {
    let mut cell = Cell::default_cell(&vec![Feature::AllowUtf8]);
    cell.increment(true).unwrap();
    assert_eq!(cell, Cell::Utf8(1));

    for _ in 0..1114110 {
        cell.increment(true).unwrap();
    }
    assert_eq!(cell, Cell::Utf8(1114111));

    assert_eq!(
        cell.increment(true).unwrap_err(),
        InterpreterErrorKind::ValueOutOfBounds.to_error()
    );
    assert_eq!(cell, Cell::Utf8(1114111));
}

#[test]
fn test_increment_u8_revers() {
    let mut cell = Cell::default_cell(&vec![]);
    cell.increment(false).unwrap();
    assert_eq!(cell, Cell::Byte(1));

    for _ in 0..254 {
        cell.increment(false).unwrap();
    }
    assert_eq!(cell, Cell::Byte(255));

    cell.increment(false).unwrap();
    assert_eq!(cell, Cell::Byte(0));
}

#[test]
fn test_increment_u32_revers() {
    let mut cell = Cell::default_cell(&vec![Feature::AllowUtf8]);
    cell.increment(false).unwrap();
    assert_eq!(cell, Cell::Utf8(1));

    for _ in 0..1114110 {
        cell.increment(false).unwrap();
    }
    assert_eq!(cell, Cell::Utf8(1114111));

    cell.increment(false).unwrap();
    assert_eq!(cell, Cell::Utf8(0));
}

#[test]
fn test_decrement_u8_no_revers() {
    let mut cell = Cell::new(255, &vec![]);
    cell.decrement(true).unwrap();
    assert_eq!(cell, Cell::Byte(254));

    for _ in 0..254 {
        cell.decrement(true).unwrap();
    }
    assert_eq!(cell, Cell::Byte(0));

    assert_eq!(
        cell.decrement(true).unwrap_err(),
        InterpreterErrorKind::ValueOutOfBounds.to_error()
    );
    assert_eq!(cell, Cell::Byte(0));
}

#[test]
fn test_decrement_u32_no_revers() {
    let mut cell = Cell::new(1114111, &vec![Feature::AllowUtf8]);
    cell.decrement(true).unwrap();
    assert_eq!(cell, Cell::Utf8(1114110));

    for _ in 0..1114110 {
        cell.decrement(true).unwrap();
    }
    assert_eq!(cell, Cell::Utf8(0));

    assert_eq!(
        cell.decrement(true).unwrap_err(),
        InterpreterErrorKind::ValueOutOfBounds.to_error()
    );
    assert_eq!(cell, Cell::Utf8(0));
}

#[test]
fn test_decrement_u8_revers() {
    let mut cell = Cell::new(0, &vec![]);
    cell.decrement(false).unwrap();
    assert_eq!(cell, Cell::Byte(255));

    for _ in 0..254 {
        cell.decrement(false).unwrap();
    }
    assert_eq!(cell, Cell::Byte(1));

    cell.decrement(false).unwrap();
    assert_eq!(cell, Cell::Byte(0));
}

#[test]
fn test_decrement_u32_revers() {
    let mut cell = Cell::new(0, &vec![Feature::AllowUtf8]);
    cell.decrement(false).unwrap();
    assert_eq!(cell, Cell::Utf8(1114111));

    for _ in 0..1114110 {
        cell.decrement(false).unwrap();
    }
    assert_eq!(cell, Cell::Utf8(1));

    cell.decrement(false).unwrap();
    assert_eq!(cell, Cell::Utf8(0));
}

#[test]
fn test_to_char() {
    let cell = Cell::new(65, &vec![]);
    assert_eq!(cell.to_char().unwrap(), 'A');

    let cell = Cell::new(129408, &vec![Feature::AllowUtf8]);
    assert_eq!(cell.to_char().unwrap(), '🦀');

    let cell = Cell::new(129392, &vec![Feature::AllowUtf8]);
    assert_eq!(cell.to_char().unwrap(), '🥰');
}

#[test]
fn test_set_value() {
    let mut cell = Cell::default_cell(&vec![]);
    cell.set_value('A');
    assert_eq!(cell, Cell::Byte(65));

    let mut cell = Cell::default_cell(&vec![Feature::AllowUtf8]);
    cell.set_value('🦀');
    assert_eq!(cell, Cell::Utf8(129408));
}

#[test]
fn cycle_narrow_returns_to_start() {
    let mut cell = Cell::new(7, &vec![]);
    for _ in 0..256 {
        cell.increment(false).unwrap();
    }
    assert_eq!(cell, Cell::Byte(7));
}

#[test]
fn cycle_wide_returns_to_start() {
    let mut cell = Cell::new(90000, &vec![Feature::AllowUtf8]);
    for _ in 0..1114112u32 {
        cell.increment(false).unwrap();
    }
    assert_eq!(cell, Cell::Utf8(90000));
}

#[test]
fn to_char_rejects_surrogates() {
    let cell = Cell::new(0xD800, &vec![Feature::AllowUtf8]);
    let err = cell.to_char().unwrap_err();
    assert_eq!(err.message(), "Invalid utf8");
    assert_eq!(err.code, 16);
}

#[test]
fn max_value_per_tag() {
    assert_eq!(Cell::new(0, &vec![]).max_value(), 255);
    assert_eq!(Cell::new(0, &vec![Feature::AllowUtf8]).max_value(), 1114111);
}
