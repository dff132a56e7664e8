use blocksync::fill::fill_buf;
use blocksync::memory::MemStream;
use blocksync::stream::{ByteSource, IoFault};

struct Broken;

impl ByteSource for Broken {
    fn read_into(&mut self, _buf: &mut Vec<u8>, _from: usize) -> Result<usize, IoFault> {
        Err(IoFault { reason: "unplugged".to_string() })
    }
}

#[test]
fn fill_buf_reads_whole_buffer() {
    let mut s = MemStream::new(vec![1, 2, 3, 4, 5]);
    let mut buf = vec![0u8; 3];
    assert_eq!(fill_buf(&mut s, &mut buf), Ok(3));
    assert_eq!(buf, vec![1, 2, 3]);
    assert_eq!(s.pos, 3);
}

#[test]
fn fill_buf_stops_at_end_of_stream() {
    let mut s = MemStream::new(vec![1, 2, 3, 4, 5]);
    let mut buf = vec![9u8; 8];
    assert_eq!(fill_buf(&mut s, &mut buf), Ok(5));
    assert_eq!(buf, vec![1, 2, 3, 4, 5, 9, 9, 9]);
    assert_eq!(s.pos, 5);
    assert_eq!(fill_buf(&mut s, &mut buf), Ok(0));
    assert_eq!(buf, vec![1, 2, 3, 4, 5, 9, 9, 9]);
}

#[test]
fn fill_buf_retries_short_reads() {
    let data: Vec<u8> = (0..100u8).collect();
    let mut s = MemStream::with_chunk(data.clone(), 7);
    let mut buf = vec![0u8; 64];
    assert_eq!(fill_buf(&mut s, &mut buf), Ok(64));
    assert_eq!(buf, data[..64].to_vec());
    assert_eq!(fill_buf(&mut s, &mut buf), Ok(36));
    assert_eq!(buf[..36].to_vec(), data[64..].to_vec());
}

#[test]
fn fill_buf_with_empty_buffer_reads_nothing() {
    let mut s = MemStream::new(vec![1, 2, 3]);
    let mut buf: Vec<u8> = Vec::new();
    assert_eq!(fill_buf(&mut s, &mut buf), Ok(0));
    assert_eq!(s.pos, 0);
}

#[test]
fn fill_buf_passes_fault_on() {
    let mut buf = vec![0u8; 3];
    assert_eq!(
        fill_buf(&mut Broken, &mut buf),
        Err(IoFault { reason: "unplugged".to_string() })
    );
}
