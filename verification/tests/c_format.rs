use polint::c_format::get_index_end_c_format;

fn end_of(s: &str) -> usize {
    // The text starts with the percent sign that opens the specifier.
    assert!(s.starts_with('%'));
    get_index_end_c_format(s.as_bytes(), 1, s.len())
}

#[test]
fn test_plain_conversions() {
    assert_eq!(end_of("%d"), 2);
    assert_eq!(end_of("%s"), 2);
    assert_eq!(end_of("%f"), 2);
    assert_eq!(end_of("%x"), 2);
    assert_eq!(end_of("%d items"), 2);
}

#[test]
fn test_flags_width_precision() {
    assert_eq!(end_of("%05d"), 4);
    assert_eq!(end_of("%08.3f"), 6);
    assert_eq!(end_of("%-+ #0d"), 7);
    assert_eq!(end_of("%10s"), 4);
    assert_eq!(end_of("%.2f"), 4);
    assert_eq!(end_of("%.f"), 3);
    assert_eq!(end_of("%*d"), 3);
    assert_eq!(end_of("%.*f"), 4);
    assert_eq!(end_of("%*.*f"), 5);
}

#[test]
fn test_star_is_single() {
    // After one `*` the width is over: the next `*` is the conversion.
    assert_eq!(end_of("%**d"), 3);
    // A `*` is not followed by digits of the same count.
    assert_eq!(end_of("%*5d"), 3);
}

#[test]
fn test_length_modifiers() {
    assert_eq!(end_of("%ld"), 3);
    assert_eq!(end_of("%lld"), 4);
    assert_eq!(end_of("%llu"), 4);
    assert_eq!(end_of("%hd"), 3);
    assert_eq!(end_of("%hhd"), 4);
    assert_eq!(end_of("%Lf"), 3);
    assert_eq!(end_of("%zu"), 3);
    assert_eq!(end_of("%jd"), 3);
    assert_eq!(end_of("%td"), 3);
    // Only two of the same letter make one modifier.
    assert_eq!(end_of("%llld"), 4);
    assert_eq!(end_of("%hld"), 3);
}

#[test]
fn test_any_conversion_character_is_taken() {
    assert_eq!(end_of("%y"), 2);
    assert_eq!(end_of("%!"), 2);
    assert_eq!(end_of("%5?x"), 3);
}

#[test]
fn test_cut_short() {
    assert_eq!(end_of("%"), 1);
    assert_eq!(end_of("%0"), 2);
    assert_eq!(end_of("%05"), 3);
    assert_eq!(end_of("%05."), 4);
    assert_eq!(end_of("%-8.3l"), 6);
    assert_eq!(end_of("%ll"), 3);
}

#[test]
fn test_multibyte_conversion_character() {
    assert_eq!(end_of("%é"), 3);
    assert_eq!(end_of("%5你好"), 5);
    assert_eq!(end_of("%😀x"), 5);
}

#[test]
fn test_len_bounds_the_scan() {
    let bytes = "%05d".as_bytes();
    assert_eq!(get_index_end_c_format(bytes, 1, 1), 1);
    assert_eq!(get_index_end_c_format(bytes, 1, 2), 2);
    assert_eq!(get_index_end_c_format(bytes, 1, 3), 3);
    assert_eq!(get_index_end_c_format(bytes, 1, 4), 4);
}

#[test]
fn test_specifier_inside_text() {
    let s = "Hello, world! %llu test-word 42.";
    assert_eq!(get_index_end_c_format(s.as_bytes(), 15, s.len()), 18);
}
