use music_visualiser_tauri::Natural;

fn same(a: &Natural, b: &Natural) -> bool {
    a.reaches(b) && b.reaches(a)
}

#[test]
fn product_of_words() {
    let fifteen = Natural::from_word(3).times(5);
    assert!(same(&fifteen, &Natural::from_word(15)));
    assert!(fifteen.reaches(&Natural::from_word(14)));
    assert!(!fifteen.reaches(&Natural::from_word(16)));
}

#[test]
fn product_carries_into_the_next_digit() {
    let top = Natural::from_word(u32::MAX);
    let square = top.times(u32::MAX);
    // (2^32 - 1)^2 = (2^32 - 2) * 2^32 + 1
    let by_parts = Natural::from_word(65536).times(65536).times(u32::MAX - 1);
    assert!(square.reaches(&by_parts));
    assert!(!by_parts.reaches(&square));
    let one_less = Natural::from_word(65536).times(65536).times(u32::MAX);
    assert!(one_less.reaches(&square));
    assert!(!square.reaches(&one_less));
}

#[test]
fn times_zero_is_zero() {
    let zero = Natural::from_word(77).times(0);
    assert!(same(&zero, &Natural::from_word(0)));
    assert!(!zero.reaches(&Natural::from_word(1)));
    assert!(Natural::from_word(0).reaches(&zero));
}

#[test]
fn order_of_factors_does_not_matter() {
    let a = Natural::from_word(4_000_000_000).times(3_000_000_000).times(7);
    let b = Natural::from_word(7).times(4_000_000_000).times(3_000_000_000);
    assert!(same(&a, &b));
}

#[test]
fn longer_number_is_not_always_the_greater() {
    // The product by zero keeps its digits, all of them zero.
    let long_zero = Natural::from_word(u32::MAX).times(u32::MAX).times(0);
    assert!(Natural::from_word(1).reaches(&long_zero));
    assert!(!long_zero.reaches(&Natural::from_word(1)));
}

#[test]
fn high_digit_decides_over_low_digits() {
    let high = Natural::from_word(65536).times(65536);
    let low = Natural::from_word(u32::MAX);
    assert!(high.reaches(&low));
    assert!(!low.reaches(&high));
}
