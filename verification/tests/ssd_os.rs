use lib::ssd_os::{encode_name, name_len, MAGIC_CONNECTOR, MAGIC_STAGE};

#[test]
fn magic_tags_spell_their_kind() {
    assert_eq!(&MAGIC_STAGE, b"stg\0");
    assert_eq!(&MAGIC_CONNECTOR, b"con\0");
}

#[test]
fn name_field_pads_with_zeros() {
    let buf = encode_name(b"l2p_stage");
    assert_eq!(&buf[..9], b"l2p_stage");
    assert!(buf[9..].iter().all(|b| *b == 0));
}

#[test]
fn name_reads_back() {
    let buf = encode_name(b"mm_connector");
    assert_eq!(name_len(&buf), 12);
    assert_eq!(&buf[..name_len(&buf)], b"mm_connector");
    assert_eq!(name_len(&encode_name(b"")), 0);
}

#[test]
fn full_name_field_reads_as_empty() {
    let buf = [b'a'; 32];
    assert_eq!(name_len(&buf), 0);
    assert_eq!(encode_name(&[b'a'; 32]), buf);
}
