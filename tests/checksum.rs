use smart_gnomad_downloader::checksum::{digest_matches, Md5ConsumerWriter};

#[test]
fn digest_of_nothing() {
    let w = Md5ConsumerWriter::new();
    assert_eq!(w.hex_digest(), "d41d8cd98f00b204e9800998ecf8427e");
}

#[test]
fn digest_of_abc() {
    let mut w = Md5ConsumerWriter::new();
    assert_eq!(w.write(b"abc"), 3);
    assert_eq!(w.hex_digest(), "900150983cd24fb0d6963f7d28e17f72");
}

#[test]
fn digest_does_not_depend_on_chunking() {
    let data: Vec<u8> = (0..5000u32).map(|i| (i * 31 % 251) as u8).collect();
    let reference = format!("{:x}", md5::compute(&data));
    for chunk in [1usize, 7, 64, 65, 1000, 5000] {
        let mut w = Md5ConsumerWriter::new();
        for part in data.chunks(chunk) {
            assert_eq!(w.write(part), part.len());
        }
        assert_eq!(w.hex_digest(), reference);
    }
}

#[test]
fn digest_compares_exactly() {
    let mut w = Md5ConsumerWriter::new();
    w.write(b"abc");
    assert!(w.digest("900150983cd24fb0d6963f7d28e17f72"));
    let mut w = Md5ConsumerWriter::new();
    w.write(b"abc");
    assert!(!w.digest("900150983CD24FB0D6963F7D28E17F72"));
    let mut w = Md5ConsumerWriter::new();
    w.write(b"abd");
    assert!(!w.digest("900150983cd24fb0d6963f7d28e17f72"));
    assert!(digest_matches("ab", "ab"));
    assert!(!digest_matches("ab", "abc"));
    assert!(!digest_matches("", "a"));
}
