use serve::Size;
use serve::SizeErrorKind;

#[test]
fn size_parse() {
    let size: Size = Size::from_str("1mb").unwrap();
    assert_eq!(size.get(), 1000 * 1000);

    let size: Size = Size::from_str("1 MiB").unwrap();
    assert_eq!(size.get(), 1024 * 1024);
}

#[test]
fn size_parse_empty() {
    assert!(matches!(
        Size::from_str(""),
        Err(err) if err.kind == SizeErrorKind::Empty,
    ));
}

#[test]
fn size_parse_invalid_digit() {
    assert!(matches!(
        Size::from_str("pib"),
        Err(err) if err.kind == SizeErrorKind::InvalidDigit,
    ));

    assert!(matches!(
        Size::from_str("b4"),
        Err(err) if err.kind == SizeErrorKind::InvalidDigit,
    ));
}

#[test]
fn size_parse_invalid_suffix() {
    assert!(matches!(
        Size::from_str("1 nibble"),
        Err(err) if err.kind == SizeErrorKind::InvalidSuffix,
    ));
}

#[test]
fn size_parse_neg_overflow() {
    assert!(matches!(
        Size::from_str("-1kb"),
        Err(err) if err.kind == SizeErrorKind::NegOverflow,
    ));
}

#[test]
fn size_fmt() {
    let size: Size = Size::from_str("1 gb").unwrap();
    assert_eq!(size.display(), "1 GB");
    assert_eq!(size.display_alternate(), "953.67 MiB");

    let size: Size = Size::from_str("1 gib").unwrap();
    assert_eq!(size.display(), "1.07 GB");
    assert_eq!(size.display_alternate(), "1 GiB");

    let size: Size = Size::from_str("1b").unwrap();
    assert_eq!(size.display(), "1 B");
    assert_eq!(size.display_alternate(), "1 B");
}

#[test]
fn size_parse_all_suffixes() {
    assert_eq!(Size::from_str("1b").unwrap().get(), 1);
    assert_eq!(Size::from_str("1kb").unwrap().get(), 1_000);
    assert_eq!(Size::from_str("1kib").unwrap().get(), 1_024);
    assert_eq!(Size::from_str("1mb").unwrap().get(), 1_000_000);
    assert_eq!(Size::from_str("1mib").unwrap().get(), 1_048_576);
    assert_eq!(Size::from_str("1gb").unwrap().get(), 1_000_000_000);
    assert_eq!(Size::from_str("1gib").unwrap().get(), 1_073_741_824);
    assert_eq!(Size::from_str("1tb").unwrap().get(), 1_000_000_000_000);
    assert_eq!(Size::from_str("1tib").unwrap().get(), 1_099_511_627_776);
    assert_eq!(Size::from_str("1pb").unwrap().get(), 1_000_000_000_000_000);
    assert_eq!(Size::from_str("1pib").unwrap().get(), 1_125_899_906_842_624);
    assert_eq!(Size::from_str("1PiB").unwrap().get(), 1_125_899_906_842_624);
}

#[test]
fn size_parse_separators() {
    assert_eq!(Size::from_str("1,000").unwrap().get(), 1_000);
    assert_eq!(Size::from_str("1_000_000").unwrap().get(), 1_000_000);
    assert_eq!(Size::from_str("32 768").unwrap().get(), 32_768);
    assert_eq!(Size::from_str("12,").unwrap().get(), 12);
    assert_eq!(Size::from_str("1,000 kb").unwrap().get(), 1_000_000);
    // a separator must immediately follow a digit: a malformed run is an
    // invalid digit, wherever it stands
    assert!(matches!(
        Size::from_str(",1"),
        Err(err) if err.kind == SizeErrorKind::InvalidDigit,
    ));
    assert!(matches!(
        Size::from_str("1,,0"),
        Err(err) if err.kind == SizeErrorKind::InvalidDigit,
    ));
    assert!(matches!(
        Size::from_str("1, 0"),
        Err(err) if err.kind == SizeErrorKind::InvalidDigit,
    ));
}

#[test]
fn size_parse_checked() {
    assert_eq!(
        Size::checked_from_str("500kb").unwrap().unwrap().get(),
        500_000
    );
    // a value beyond the machine's range is reported, not wrapped
    assert!(Size::checked_from_str("99999999999999999999999999").is_none());
    assert!(Size::checked_from_str("999999999999999999pib").is_none());
    // errors still win over overflow when the string is malformed
    assert!(matches!(
        Size::checked_from_str("99999999999999999999999999-"),
        Some(Err(err)) if err.kind == SizeErrorKind::NegOverflow,
    ));
}

#[test]
fn size_fmt_exact_and_rounded() {
    assert_eq!(Size::new(0).display(), "0 B");
    assert_eq!(Size::new(0).display_alternate(), "0 B");
    assert_eq!(Size::new(999).display(), "999 B");
    assert_eq!(Size::new(1_000).display(), "1 KB");
    assert_eq!(Size::new(1_500).display(), "1.50 KB");
    assert_eq!(Size::new(1_000_000).display(), "1 MB");
    assert_eq!(Size::new(1_048_576).display_alternate(), "1 MiB");
    assert_eq!(Size::new(1_023).display_alternate(), "1023 B");
    assert_eq!(Size::new(1_536).display_alternate(), "1.50 KiB");
}

#[test]
fn size_round_trip_aligned() {
    // a value aligned to its displayed unit renders without a fraction
    // and parses back exactly; any other value renders with one and no
    // longer parses
    for v in [0usize, 5, 999, 1_000, 250_000, 3_000_000, 1_024, 1_048_576] {
        for shown in [Size::new(v).display(), Size::new(v).display_alternate()] {
            if !shown.contains('.') {
                assert_eq!(Size::from_str(&shown).unwrap().get(), v);
            } else {
                assert!(matches!(
                    Size::from_str(&shown),
                    Err(err) if err.kind == SizeErrorKind::InvalidSuffix,
                ));
            }
        }
    }
    // a value that displays with a fraction does not parse back
    let shown = Size::new(1_500).display();
    assert_eq!(shown, "1.50 KB");
    assert!(matches!(
        Size::from_str(&shown),
        Err(err) if err.kind == SizeErrorKind::InvalidSuffix,
    ));
}

#[test]
fn size_from_unsigned_integers() {
    assert_eq!(Size::from(5usize).get(), 5);
    assert_eq!(Size::from(5u8).get(), 5);
    assert_eq!(Size::from(500u16).get(), 500);
    assert_eq!(Size::from(70_000u32).get(), 70_000);
    assert_eq!(Size::from(1_048_576u64).get(), 1_048_576);
    assert_eq!(Size::from(1_048_576u128).get(), 1_048_576);
    assert_eq!(Size::default().get(), 0);
}

#[test]
fn size_error_messages() {
    assert_eq!(Size::from_str("").unwrap_err().message(), "empty");
    assert_eq!(Size::from_str("x").unwrap_err().message(), "invalid digit");
    assert_eq!(
        Size::from_str("1 nibble").unwrap_err().message(),
        "invalid suffix"
    );
    assert_eq!(
        Size::from_str("-1").unwrap_err().message(),
        "negative overflow"
    );
}
