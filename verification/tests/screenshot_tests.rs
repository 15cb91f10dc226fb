use ask_anywhere::screenshot::png_data_url;

#[test]
fn data_url_encodes_the_bytes_in_base64() {
    let bytes = b"hello".to_vec();
    assert_eq!(png_data_url(&bytes), "data:image/png;base64,aGVsbG8=");
}

#[test]
fn data_url_of_no_bytes_is_just_the_prefix() {
    let bytes = Vec::new();
    assert_eq!(png_data_url(&bytes), "data:image/png;base64,");
}

#[test]
fn data_url_pads_to_four_character_groups() {
    let bytes = vec![0xffu8, 0x00];
    let url = png_data_url(&bytes);
    assert_eq!(url, "data:image/png;base64,/wA=");
    assert_eq!(url.len(), "data:image/png;base64,".len() + 4);
}
