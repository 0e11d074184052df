use sbof::buf::Buf;
use sbof::Error;

#[test]
fn cursor_reads_and_peeks() {
    let data = [1u8, 0xff, 3, 4, 5];
    let mut b = Buf::new(&data);
    assert_eq!(b.peek_u8().unwrap(), 1);
    assert_eq!(b.peek_u8().unwrap(), 1);
    assert_eq!(b.read_u8().unwrap(), 1);
    assert_eq!(b.peek_i8().unwrap(), -1);
    assert_eq!(b.read_i8().unwrap(), -1);
    assert_eq!(b.read_slice(2).unwrap(), &[3, 4]);
    assert!(matches!(b.read_slice(2), Err(Error::EOF)));
    assert_eq!(b.remaining(), 1);
    let mut out = [0u8; 4];
    assert_eq!(b.read(&mut out), 1);
    assert_eq!(out, [5, 0, 0, 0]);
    assert!(matches!(b.read_u8(), Err(Error::EOF)));
    assert!(matches!(b.peek_i8(), Err(Error::EOF)));
    assert_eq!(b.read(&mut out), 0);
}
