use placard::adler32::adler32_update;
use placard::crc32::crc32_update;

fn adler32(data: &[u8]) -> u32 {
    let mut a: u32 = 1;
    let mut b: u32 = 0;
    adler32_update(&mut a, &mut b, data);
    (b << 16) | a
}

fn crc32(data: &[u8]) -> u32 {
    let mut crc = 0xFFFFFFFFu32;
    crc32_update(&mut crc, data);
    crc ^ 0xFFFFFFFF
}

#[test]
fn matches_wikipedia_example() {
    assert_eq!(adler32(b"Wikipedia"), 0x11E60398);
}

#[test]
fn empty_input_is_one() {
    assert_eq!(adler32(b""), 1);
}

#[test]
fn adler32_incremental_updates_match_one_shot() {
    let (mut a1, mut b1) = (1u32, 0u32);
    adler32_update(&mut a1, &mut b1, b"Wiki");
    adler32_update(&mut a1, &mut b1, b"pedia");
    assert_eq!((b1 << 16) | a1, adler32(b"Wikipedia"));
}

#[test]
fn matches_standard_check_value() {
    assert_eq!(crc32(b"123456789"), 0xCBF43926);
}

#[test]
fn empty_input_is_zero() {
    assert_eq!(crc32(b""), 0);
}

#[test]
fn crc32_incremental_updates_match_one_shot() {
    let mut crc = 0xFFFFFFFFu32;
    crc32_update(&mut crc, b"12345");
    crc32_update(&mut crc, b"6789");
    assert_eq!(crc ^ 0xFFFFFFFF, crc32(b"123456789"));
}

#[test]
fn adler32_splits_anywhere_give_the_same_checksum() {
    let data = b"The quick brown fox jumps over the lazy dog";
    for split in 0..=data.len() {
        let (mut a, mut b) = (1u32, 0u32);
        adler32_update(&mut a, &mut b, &data[..split]);
        adler32_update(&mut a, &mut b, &data[split..]);
        assert_eq!((b << 16) | a, adler32(data));
    }
}

#[test]
fn crc32_splits_anywhere_give_the_same_checksum() {
    let data = b"The quick brown fox jumps over the lazy dog";
    for split in 0..=data.len() {
        let mut crc = 0xFFFFFFFFu32;
        crc32_update(&mut crc, &data[..split]);
        crc32_update(&mut crc, &data[split..]);
        assert_eq!(crc ^ 0xFFFFFFFF, crc32(data));
    }
    assert_eq!(crc32(data), 0x414FA339);
}

#[test]
fn adler32_of_a_single_byte() {
    assert_eq!(adler32(b"a"), 0x00620062);
}
