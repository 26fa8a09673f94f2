use speedketchup::bytes::memmem;
use speedketchup::numbers::{parse_int, IntErrorKind};
use speedketchup::timestamp::{parse_timestr, timestr, timestr_lacks_field, timestr_millis, TimestrError};

#[test]
fn memmem_finds_first_occurrence() {
    assert_eq!(memmem(b"abcabc", b"bc"), Some(1));
    assert_eq!(memmem(b"abcabc", b"abc"), Some(0));
    assert_eq!(memmem(b"abcabc", b"cb"), None);
    assert_eq!(memmem(b"ab", b"abc"), None);
    assert_eq!(memmem(b"x\r\n\r\ny", b"\r\n\r\n"), Some(1));
}

#[test]
fn parse_int_follows_from_str_radix() {
    assert_eq!(parse_int(b"123", 10, false, 0, 0xffff_ffff), Ok(123));
    assert_eq!(parse_int(b"+7", 10, false, 0, 0xffff_ffff), Ok(7));
    assert_eq!(parse_int(b"", 10, false, 0, 0xffff_ffff), Err(IntErrorKind::Empty));
    assert_eq!(parse_int(b"+", 10, false, 0, 0xffff_ffff), Err(IntErrorKind::InvalidDigit));
    assert_eq!(parse_int(b"-5", 10, false, 0, 0xffff_ffff), Err(IntErrorKind::InvalidDigit));
    assert_eq!(parse_int(b"-5", 10, true, -2147483648, 2147483647), Ok(-5));
    assert_eq!(parse_int(b"4294967296", 10, false, 0, 0xffff_ffff), Err(IntErrorKind::PosOverflow));
    assert_eq!(parse_int(b"-2147483649", 10, true, -2147483648, 2147483647), Err(IntErrorKind::NegOverflow));
    assert_eq!(parse_int(b"1aF", 16, false, 0, 0xffff_ffff), Ok(0x1af));
    assert_eq!(parse_int(b"99999999999x", 10, false, 0, 0xffff_ffff), Err(IntErrorKind::PosOverflow));
    assert_eq!(parse_int(b"9x9999999999", 10, false, 0, 0xffff_ffff), Err(IntErrorKind::InvalidDigit));
}

#[test]
fn timestr_formats_utc() {
    assert_eq!(timestr(0), "1970.01.01-00:00:00");
    assert_eq!(timestr(1700000000), "2023.11.14-22:13:20");
    assert_eq!(timestr(951782400), "2000.02.29-00:00:00");
    assert_eq!(timestr(253402300799), "9999.12.31-23:59:59");
    assert_eq!(timestr(4102444799), "2099.12.31-23:59:59");
}

#[test]
fn timestr_millis_appends_milliseconds() {
    assert_eq!(timestr_millis(86399, 7), "1970.01.01-23:59:59.007");
    assert_eq!(timestr_millis(1700000000, 999), "2023.11.14-22:13:20.999");
}

#[test]
fn parse_timestr_reads_back_timestr() {
    for t in [0u64, 59, 86400, 951782400, 1700000000, 1234567890, 4102444799] {
        let s = timestr(t);
        assert!(!timestr_lacks_field(&s));
        assert_eq!(parse_timestr(&s), Ok((t % (1u64 << 32)) as u32));
    }
}

#[test]
fn parse_timestr_cuts_to_32_bits() {
    // 2200-01-01 is 7258118400 seconds after the epoch
    assert_eq!(parse_timestr("2200.01.01-00:00:00"), Ok((7258118400u64 - (1u64 << 32)) as u32));
}

#[test]
fn parse_timestr_normalises_fields() {
    assert_eq!(parse_timestr("2023.13.01-00:00:00"), parse_timestr("2024.01.01-00:00:00"));
    assert_eq!(parse_timestr("2024.01.32-00:00:00"), parse_timestr("2024.02.01-00:00:00"));
    assert_eq!(parse_timestr("1970.01.01-00:00:61"), Ok(61));
    assert_eq!(parse_timestr("1970.01.01-25:00:00"), Ok(90000));
    assert_eq!(parse_timestr("+1970.01.01-00:00:05"), Ok(5));
}

#[test]
fn parse_timestr_errors() {
    assert_eq!(parse_timestr("2024.01.01"), Err(TimestrError::NoTime));
    assert_eq!(parse_timestr("2024.xx.01-00:00:00"), Err(TimestrError::BadField(IntErrorKind::InvalidDigit)));
    assert_eq!(parse_timestr(".01.01-00:00:00"), Err(TimestrError::BadField(IntErrorKind::Empty)));
    assert_eq!(parse_timestr("9999999999.01.01-00:00:00"), Err(TimestrError::BadField(IntErrorKind::PosOverflow)));
    assert_eq!(parse_timestr("x-y"), Err(TimestrError::BadField(IntErrorKind::InvalidDigit)));
}

#[test]
fn missing_fields_are_detected() {
    assert!(timestr_lacks_field("2024-00:00:00"));
    assert!(timestr_lacks_field("2024.01-00:00:00"));
    assert!(timestr_lacks_field("2024.01.01-00"));
    assert!(timestr_lacks_field("2024.01.01-00:00"));
    assert!(!timestr_lacks_field("2024.01.01"));
    assert!(!timestr_lacks_field("x.01-00:00:00"));
}

#[test]
fn timestr_parse_before_epoch_year_one() {
    // year 0 lies before the epoch: the instant is negative and cut to 32 bits
    let secs_year0: i64 = -62167219200;
    assert_eq!(parse_timestr("0.01.01-00:00:00"), Ok(secs_year0.rem_euclid(1i64 << 32) as u32));
}
