use ownable_std::{derive_rgb_values, get_random_color, package_title_from_name, rgb_hex};

#[test]
fn rgb_hex_formats_correctly() {
    assert_eq!(rgb_hex(0, 0, 0), "#000000");
    assert_eq!(rgb_hex(255, 255, 255), "#FFFFFF");
    assert_eq!(rgb_hex(255, 0, 0), "#FF0000");
    assert_eq!(rgb_hex(0, 128, 255), "#0080FF");
}

#[test]
fn derive_rgb_values_reads_last_three_bytes_reversed() {
    assert_eq!(derive_rgb_values("010203".to_string()), (3, 2, 1));
}

#[test]
fn derive_rgb_values_strips_0x_prefix() {
    assert_eq!(
        derive_rgb_values("0x010203".to_string()),
        derive_rgb_values("010203".to_string())
    );
}

#[test]
fn derive_rgb_values_pads_odd_length_input() {
    assert_eq!(derive_rgb_values("abc".to_string()), (0xbc, 0x0a, 0));
}

#[test]
fn derive_rgb_values_returns_zeros_for_invalid_hex() {
    assert_eq!(derive_rgb_values("xyz".to_string()), (0, 0, 0));
}

#[test]
fn derive_rgb_values_returns_zeros_for_empty_input() {
    assert_eq!(derive_rgb_values("".to_string()), (0, 0, 0));
}

#[test]
fn derive_rgb_values_uses_last_three_bytes_of_long_input() {
    assert_eq!(
        derive_rgb_values("aabbccdd11223344".to_string()),
        (0x44, 0x33, 0x22)
    );
}

#[test]
fn derive_rgb_values_decodes_mixed_case_hex() {
    assert_eq!(derive_rgb_values("0A0b0C".to_string()), (0x0c, 0x0b, 0x0a));
}

#[test]
fn derive_rgb_values_trims_white_space_and_repeated_prefixes() {
    assert_eq!(derive_rgb_values("  0x0x0a0b0c \n".to_string()), (0x0c, 0x0b, 0x0a));
    assert_eq!(derive_rgb_values("\u{3000}ff".to_string()), (0xff, 0, 0));
}

#[test]
fn derive_rgb_values_rejects_inner_white_space() {
    assert_eq!(derive_rgb_values("0a 0b".to_string()), (0, 0, 0));
    assert_eq!(derive_rgb_values("é1".to_string()), (0, 0, 0));
}

#[test]
fn get_random_color_returns_hash_prefixed_hex() {
    let color = get_random_color("010203".to_string());
    assert!(color.starts_with('#'));
    assert_eq!(color.len(), 7);
}

#[test]
fn get_random_color_is_deterministic() {
    let hash = "deadbeef".to_string();
    assert_eq!(get_random_color(hash.clone()), get_random_color(hash));
}

#[test]
fn get_random_color_exact_value() {
    assert_eq!(get_random_color("deadbeef".to_string()), "#EFBEAD");
    assert_eq!(get_random_color("not hex".to_string()), "#000000");
}

#[test]
fn package_title_from_name_examples() {
    assert_eq!(package_title_from_name("ownable-my-first"), "My First");
    assert_eq!(package_title_from_name("my_cool-thing"), "My Cool Thing");
    assert_eq!(package_title_from_name("ownable-ownable-a__b-"), "A B");
    assert_eq!(package_title_from_name(""), "");
    assert_eq!(package_title_from_name("ownable-"), "");
    assert_eq!(package_title_from_name("--x"), "X");
    assert_eq!(package_title_from_name("été-2"), "été 2");
    assert_eq!(package_title_from_name("Ownable-robot"), "Ownable Robot");
}
