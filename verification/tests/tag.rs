use fontcore::tag::Tag;

#[test]
fn tag_holds_its_bytes_as_a_number() {
    assert_eq!(Tag::new(b"DFLT"), Tag(0x4446_4C54));
    assert_eq!(Tag::new(b"dflt").0, 0x6466_6C74);
    assert_eq!(Tag::new(&[0, 0, 0, 1]).0, 1);
    assert_eq!(Tag::new(&[255, 255, 255, 255]).0, u32::MAX);
    assert_eq!(Tag::new(b"kern").0, u32::from_be_bytes(*b"kern"));
}

#[test]
fn tag_gives_its_bytes_back() {
    assert_eq!(&Tag::new(b"liga").to_be_bytes(), b"liga");
    assert_eq!(Tag(0x0102_03FF).to_be_bytes(), [1, 2, 3, 255]);
    assert_eq!(Tag(0).to_be_bytes(), [0, 0, 0, 0]);
}

#[test]
fn tags_are_ordered_as_their_bytes() {
    assert!(Tag::new(b"DFLT") < Tag::new(b"dflt"));
    assert!(Tag::new(b"aaaz") < Tag::new(b"aaba"));
    assert!(Tag::new(b"kern") > Tag::new(b"calt"));
}
