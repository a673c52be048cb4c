use mystic_draw::SauceString;

#[test]
fn test_sauce_string_string_conversion() {
    let str = SauceString::<20, 0>::from("Hello World!");
    assert_eq!("Hello World!", str.to_string());
}

#[test]
fn sauce_string_read_keeps_field_content() {
    let mut field = vec![b'H', b'i'];
    field.resize(35, b' ');
    field.extend_from_slice(b"rest");
    let mut s = SauceString::<35, 32>::new();
    assert_eq!(35, s.read(&field));
    assert_eq!("Hi", s.to_string());
}

#[test]
fn sauce_string_read_appends_then_cuts_at_field_offset() {
    let mut field = vec![b'C', b'D'];
    field.resize(35, b' ');
    let mut s = SauceString::<35, 32>::from("AB");
    assert_eq!(35, s.read(&field));
    assert_eq!("AB", s.to_string());
    let mut nul_field = vec![b'x', b'y', 0];
    nul_field.resize(22, 0);
    let mut t = SauceString::<22, 0>::from("ab");
    assert_eq!(22, t.read(&nul_field));
    assert_eq!("ab", t.to_string());
}
