use adr::id::{extract_id_from_filename, format_id};

#[test]
fn format_id_is_zero_padded() {
    assert_eq!(format_id(1), "001");
    assert_eq!(format_id(12), "012");
    assert_eq!(format_id(123), "123");
}

#[test]
fn format_id_keeps_longer_ids_and_zero() {
    assert_eq!(format_id(0), "000");
    assert_eq!(format_id(1234), "1234");
    assert_eq!(format_id(u32::MAX), "4294967295");
}

#[test]
fn extract_id_rejects_ids_beyond_u32() {
    assert_eq!(extract_id_from_filename("4294967295-Max.md"), Some(u32::MAX));
    assert_eq!(extract_id_from_filename("4294967296-Too-Big.md"), None);
    assert_eq!(extract_id_from_filename("99999999999-Too-Big.md"), None);
}

#[test]
fn extract_id_needs_a_dash_and_the_md_suffix() {
    assert_eq!(extract_id_from_filename("0007.md"), None);
    assert_eq!(extract_id_from_filename("0007-a.MD"), None);
    assert_eq!(extract_id_from_filename("0007-.md"), Some(7));
    assert_eq!(extract_id_from_filename("12a-x.md"), None);
    assert_eq!(extract_id_from_filename(".md"), None);
    assert_eq!(extract_id_from_filename(""), None);
}
