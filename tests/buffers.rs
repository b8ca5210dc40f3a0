use ordcode::buf::{BiBuffer, BytesBufExt, BytesReader, TailWriteBytes, WriteBytes};
use ordcode::{DeBytesReader, DeBytesWriter, Error};

#[test]
fn test_debuffer() {
    let mut byte_buf = vec![0_u8; 7];
    let mut bib = DeBytesWriter::new(byte_buf.as_mut_slice());
    bib.write(b"aa").unwrap();
    bib.write_tail(b"1").unwrap();
    bib.write(b"bb").unwrap();
    bib.write_tail(b"2").unwrap();
    bib.write(b"d").unwrap();
    bib.is_complete().unwrap();
    assert_eq!(&byte_buf, b"aabbd21");
    let mut rb = DeBytesReader::new(byte_buf.as_slice());
    assert_eq!(rb.read(3).unwrap() == b"aab", true);
    assert_eq!(rb.read_tail(1).unwrap() == b"1", true);
    assert_eq!(rb.read_tail(1).unwrap() == b"2", true);
    assert_eq!(rb.read(2).unwrap() == b"bd", true);
    rb.is_complete().unwrap();
}

#[test]
fn test_bibuffer() {
    let mut byte_buf = vec![0_u8; 7];
    let mut bib = BiBuffer::new(byte_buf.as_mut_slice());
    bib.write(b"aa").unwrap();
    bib.write_tail(b"1").unwrap();
    bib.write(b"bb").unwrap();
    bib.write_tail(b"2").unwrap();
    bib.write(b"d").unwrap();
    bib.is_complete().unwrap();
    assert_eq!(&byte_buf, b"aabbd21");
    let mut rb = BytesReader::new(byte_buf.as_slice());
    assert_eq!(rb.read(3).unwrap() == b"aab", true);
    assert_eq!(rb.read_tail(1).unwrap() == b"1", true);
    assert_eq!(rb.read_tail(1).unwrap() == b"2", true);
    assert_eq!(rb.read(2).unwrap() == b"bd", true);
    rb.is_complete().unwrap();
}

#[test]
fn writer_overflow_and_finalize() {
    let mut byte_buf = vec![0_u8; 5];
    let mut w = DeBytesWriter::new(byte_buf.as_mut_slice());
    w.write(b"ab").unwrap();
    w.write_tail(b"z").unwrap();
    assert_eq!(w.write(b"xyz"), Err(Error::BufferOverflow));
    assert_eq!(w.write_tail(b"xyz"), Err(Error::BufferOverflow));
    assert_eq!(w.is_complete(), Err(Error::BufferUnderflow));
    assert_eq!(w.finalize(), Ok(3));
    assert_eq!(w.head, w.tail);
    assert_eq!(&byte_buf[..3], b"abz");
}

#[test]
fn finalize_of_full_buffer_is_its_length() {
    let mut byte_buf = vec![0_u8; 3];
    let mut w = DeBytesWriter::new(byte_buf.as_mut_slice());
    w.write(b"a").unwrap();
    w.write_tail(b"bc").unwrap();
    assert_eq!(w.finalize(), Ok(3));
    assert_eq!(&byte_buf, b"abc");
}

#[test]
fn reader_underflow() {
    let data = [1_u8, 2, 3];
    let mut r = DeBytesReader::new(&data);
    assert_eq!(r.read(4), Err(Error::PrematureEndOfInput));
    assert_eq!(r.peek_tail(4), Err(Error::PrematureEndOfInput));
    assert_eq!(r.read(1).unwrap(), &[1_u8][..]);
    assert_eq!(r.is_complete(), Err(Error::BufferUnderflow));
    assert_eq!(r.read_tail(2).unwrap(), &[2_u8, 3][..]);
    assert_eq!(r.is_complete(), Ok(()));
}

fn take_two<'a, R: ordcode::buf::TailReadBytes<'a>>(r: &mut R) -> (Vec<u8>, Vec<u8>) {
    let head = r.read(2).unwrap().to_vec();
    let tail = r.read_tail(2).unwrap().to_vec();
    (head, tail)
}

#[test]
fn reader_through_traits() {
    let data = [1_u8, 2, 3, 4, 5];
    let mut r = DeBytesReader::new(&data);
    assert_eq!(take_two(&mut r), (vec![1, 2], vec![4, 5]));
    assert_eq!(ordcode::buf::ReadBytes::remaining_buffer(&r), &[3_u8][..]);
    assert_eq!(ordcode::buf::ReadBytes::is_complete(&r), Err(Error::BufferUnderflow));
}

#[test]
fn writers_through_traits() {
    let mut v: Vec<u8> = BytesBufExt::with_reserve(4);
    WriteBytes::write(&mut v, b"xy").unwrap();
    assert_eq!(v.clone().into_vec8(), b"xy".to_vec());
    let mut byte_buf = vec![0_u8; 4];
    let mut w = DeBytesWriter::new(byte_buf.as_mut_slice());
    WriteBytes::write(&mut w, b"a").unwrap();
    TailWriteBytes::write_tail(&mut w, b"z").unwrap();
    assert_eq!(TailWriteBytes::write_tail(&mut w, b"123"), Err(Error::BufferOverflow));
    assert_eq!(w.finalize(), Ok(2));
    assert_eq!(&byte_buf[..2], b"az");
}
