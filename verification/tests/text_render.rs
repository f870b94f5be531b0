use data_structures::text::format_i64;
use data_structures::text::format_u64;

#[test]
fn decimal_rendering_of_integers() {
    assert_eq!(format_u64(0), "0");
    assert_eq!(format_u64(7), "7");
    assert_eq!(format_u64(10), "10");
    assert_eq!(format_u64(90210), "90210");
    assert_eq!(format_u64(u64::MAX), "18446744073709551615");

    assert_eq!(format_i64(0), "0");
    assert_eq!(format_i64(42), "42");
    assert_eq!(format_i64(-1), "-1");
    assert_eq!(format_i64(-305), "-305");
    assert_eq!(format_i64(i64::MAX), "9223372036854775807");
    assert_eq!(format_i64(i64::MIN), "-9223372036854775808");
}
