use huffrs::wire::{get_u16, get_u32, get_u8, put_u16, put_u32, put_u8};

#[test]
fn put_and_get_u8() {
    let mut v = Vec::new();
    put_u8(&mut v, 0xab);
    put_u8(&mut v, 0x00);
    assert_eq!(v, vec![0xab, 0x00]);
    let (p, x) = get_u8(&v, 0);
    assert_eq!((p, x), (1, 0xab));
    let (p, x) = get_u8(&v, p);
    assert_eq!((p, x), (2, 0x00));
}

#[test]
fn put_and_get_u16_little_endian() {
    let mut v = Vec::new();
    put_u16(&mut v, 0x1234);
    assert_eq!(v, vec![0x34, 0x12]);
    let (p, x) = get_u16(&v, 0);
    assert_eq!((p, x), (2, 0x1234));
    for val in [0u16, 1, 255, 256, 65535] {
        let mut v = Vec::new();
        put_u16(&mut v, val);
        assert_eq!(get_u16(&v, 0), (2, val));
    }
}

#[test]
fn put_and_get_u32_little_endian() {
    let mut v = Vec::new();
    put_u32(&mut v, 0xdead_beef);
    assert_eq!(v, vec![0xef, 0xbe, 0xad, 0xde]);
    let (p, x) = get_u32(&v, 0);
    assert_eq!((p, x), (4, 0xdead_beef));
    for val in [0u32, 1, 255, 256, 65535, 65536, u32::MAX] {
        let mut v = vec![0x77];
        put_u32(&mut v, val);
        assert_eq!(get_u32(&v, 1), (5, val));
    }
}
