use mpfloat::text::check_number;

fn accepts(text: &str, radix: i32) -> bool {
    check_number(text, radix).is_ok()
}

#[test]
fn plain_numbers_are_accepted() {
    assert!(accepts("3.14", 10));
    assert!(accepts("314", 10));
    assert!(accepts("-3.14", 10));
    assert!(accepts("0", 2));
    assert!(accepts("101.011", 2));
    assert!(accepts(".5", 10));
    assert!(accepts("5.", 10));
    assert!(accepts("-.5", 10));
}

#[test]
fn exponents_are_accepted() {
    assert!(accepts("3.14e5", 10));
    assert!(accepts("3.14E-5", 10));
    assert!(accepts("3.14e+5", 10));
    assert!(accepts("3.14@5", 10));
    assert!(accepts("ff@-12", 16));
    assert!(accepts("5.e3", 10));
    assert!(accepts("1@0", 2));
}

#[test]
fn letters_count_as_digits_by_radix() {
    assert!(accepts("ff", 16));
    assert!(accepts("FF", 16));
    assert!(accepts("1e5", 16));
    assert!(!accepts("fg", 16));
    assert!(accepts("z", 36));
    assert!(accepts("Z", 36));
    assert!(accepts("Z", 37));
    assert!(accepts("a", 37));
    assert!(!accepts("b", 37));
    assert!(accepts("b", 38));
    assert!(accepts("Zz", 62));
    assert!(!accepts("z", 61));
    assert!(!accepts("2", 2));
    assert!(!accepts("9", 9));
}

#[test]
fn malformed_texts_are_refused() {
    for text in [
        "", "-", ".", "-.", "e5", "1e", "1e+", "1e-", "1@", "12a", "+1", " 1", "1 ", "1.2.3",
        "1..2", "--1", "1e5.0", "1e5e5", "1@@5", "1e 5", "1_000", "3.\u{0}14", "\u{0}",
    ] {
        assert!(!accepts(text, 10), "{:?}", text);
    }
    assert!(!accepts("1e5", 11));
    assert!(!accepts("1E5", 11));
}

#[test]
fn radix_must_lie_between_two_and_sixty_two() {
    for radix in [i32::MIN, -10, -2, 0, 1, 63, 100, i32::MAX] {
        assert!(!accepts("1", radix));
    }
    for radix in [2, 3, 10, 16, 36, 37, 62] {
        assert!(accepts("1", radix));
    }
}
