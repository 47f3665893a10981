use luna::hex::{char_hex_vec_to_int, char_to_hex};

#[test]
fn single_hex_digits() {
    assert_eq!(char_to_hex('0'), 0);
    assert_eq!(char_to_hex('9'), 9);
    assert_eq!(char_to_hex('a'), 10);
    assert_eq!(char_to_hex('f'), 15);
    assert_eq!(char_to_hex('A'), 10);
    assert_eq!(char_to_hex('F'), 15);
    assert_eq!(char_to_hex('z'), 0);
    assert_eq!(char_to_hex(' '), 0);
}

#[test]
fn hex_string_values() {
    assert_eq!(char_hex_vec_to_int(vec![]), 0);
    assert_eq!(char_hex_vec_to_int(vec!['0']), 0);
    assert_eq!(char_hex_vec_to_int(vec!['f', 'f']), 255);
    assert_eq!(char_hex_vec_to_int(vec!['1', '0']), 16);
    assert_eq!(char_hex_vec_to_int(vec!['d', 'E', 'a', 'D']), 0xdead);
    assert_eq!(char_hex_vec_to_int(vec!['a', '0', '0', '0', '0']), 0xa0000);
}

#[test]
fn sixteen_digits_fill_a_u64() {
    let digits = vec!['f'; 16];
    assert_eq!(char_hex_vec_to_int(digits), u64::MAX);
}

#[test]
fn non_hex_characters_count_as_zero() {
    assert_eq!(char_hex_vec_to_int(vec!['1', 'x', '2']), 0x102);
}
