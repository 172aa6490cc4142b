use frame_conn::connection::{Connection, ConnectionError, ReadStep};
use frame_conn::frame::Frame;

fn encoded(f: &Frame) -> Vec<u8> {
    let mut c = Connection::new();
    c.write_frame(f);
    c.take_output()
}

#[test]
fn clean_close_ends_the_session() {
    let mut c = Connection::new();
    assert_eq!(c.read_frame(), ReadStep::NeedData);
    assert_eq!(c.stream_closed(), Ok(()));
}

#[test]
fn close_mid_frame_is_a_reset() {
    let mut c = Connection::new();
    c.receive(b"$5\r\nhel");
    assert_eq!(c.read_frame(), ReadStep::NeedData);
    assert_eq!(c.stream_closed(), Err(ConnectionError::ConnectionReset));
}

#[test]
fn malformed_prefix_fails_the_read() {
    let mut c = Connection::new();
    c.receive(b"!bad\r\n");
    assert_eq!(c.read_frame(), ReadStep::Failed(ConnectionError::MalformedFrame));
}

#[test]
fn two_frames_come_out_one_per_call() {
    let f1 = Frame::Simple("OK".to_string());
    let f2 = Frame::Bulk(b"value".to_vec());
    let mut bytes = encoded(&f1);
    bytes.extend_from_slice(&encoded(&f2));
    let mut c = Connection::new();
    c.receive(&bytes);
    assert_eq!(c.read_frame(), ReadStep::Frame(f1));
    assert_eq!(c.read_frame(), ReadStep::Frame(f2));
    assert_eq!(c.read_frame(), ReadStep::NeedData);
    assert_eq!(c.stream_closed(), Ok(()));
}

fn read_in_chunks(bytes: &[u8], size: usize) -> Frame {
    let mut c = Connection::new();
    let mut start = 0;
    loop {
        match c.read_frame() {
            ReadStep::Frame(f) => {
                assert_eq!(start, bytes.len());
                assert_eq!(c.stream_closed(), Ok(()));
                return f;
            }
            ReadStep::NeedData => {
                assert!(start < bytes.len());
                let end = usize::min(start + size, bytes.len());
                c.receive(&bytes[start..end]);
                start = end;
            }
            ReadStep::Failed(e) => panic!("unexpected failure {:?}", e),
        }
    }
}

#[test]
fn chunking_does_not_change_the_frame() {
    let f = Frame::Array(vec![
        Frame::Bulk(b"set".to_vec()),
        Frame::Bulk(b"key".to_vec()),
        Frame::Integer(123456789),
        Frame::Error("e".to_string()),
    ]);
    let bytes = encoded(&f);
    for size in 1..=bytes.len() {
        assert_eq!(read_in_chunks(&bytes, size), f);
    }
}

#[test]
fn a_frame_larger_than_the_initial_capacity_is_read() {
    let f = Frame::Bulk(vec![7u8; 10000]);
    let bytes = encoded(&f);
    assert_eq!(read_in_chunks(&bytes, 4096), f);
}

#[test]
fn written_frames_queue_until_taken() {
    let mut c = Connection::new();
    c.write_frame(&Frame::Integer(1));
    c.write_frame(&Frame::Null);
    assert_eq!(c.take_output(), b":1\r\n$-1\r\n".to_vec());
    assert_eq!(c.take_output(), Vec::<u8>::new());
}
