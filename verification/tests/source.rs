use compress_estimate::source::{read_step, ReadStep, Source};

#[test]
fn slice_source_reads() {
    let data: Vec<u8> = (0..=255).cycle().take(1000).collect();
    let mut buf = [0u8; 100];
    data.as_slice().read_exact_at(950, &mut buf).unwrap();
    assert_eq!(&buf[..50], &data[950..1000]);
    // Short read at EOF leaves the tail untouched but succeeds.
    assert_eq!(&buf[50..], &[0u8; 50]);
}

#[test]
fn slice_source_edges() {
    let data = [1u8, 2, 3];
    let src: &[u8] = &data;
    assert_eq!(Source::len(&src), 3);
    assert!(!Source::is_empty(&src));
    assert!(Source::is_empty(&[][..]));
    let mut buf = [9u8; 2];
    assert_eq!(src.read_at(1, &mut buf).unwrap(), 2);
    assert_eq!(buf, [2, 3]);
    assert_eq!(src.read_at(3, &mut buf).unwrap(), 0);
    assert_eq!(src.read_at(u64::MAX, &mut buf).unwrap(), 0);
    assert_eq!(buf, [2, 3]);
    assert_eq!(src.read_at(0, &mut []).unwrap(), 0);
}

/// A source that reads one byte at a time and can fail.
struct Drip {
    data: Vec<u8>,
    fails_at: u64,
}

impl Source for Drip {
    fn len(&self) -> u64 {
        self.data.len() as u64
    }

    fn read_at(&self, offset: u64, buf: &mut [u8]) -> Result<usize, std::io::Error> {
        if offset == self.fails_at {
            return Err(std::io::Error::new(std::io::ErrorKind::Other, "torn"));
        }
        if buf.is_empty() || offset >= self.data.len() as u64 {
            return Ok(0);
        }
        buf[0] = self.data[offset as usize];
        Ok(1)
    }
}

#[test]
fn short_reads_are_completed() {
    let src = Drip {
        data: (0..20).collect(),
        fails_at: 99,
    };
    let mut buf = [0u8; 8];
    src.read_exact_at(5, &mut buf).unwrap();
    assert_eq!(buf, [5, 6, 7, 8, 9, 10, 11, 12]);
    src.read_exact_at(16, &mut buf).unwrap();
    assert_eq!(buf, [16, 17, 18, 19, 9, 10, 11, 12]);
}

#[test]
fn read_errors_are_passed_on() {
    let src = Drip {
        data: (0..20).collect(),
        fails_at: 7,
    };
    let mut buf = [0u8; 8];
    assert!(src.read_exact_at(5, &mut buf).is_err());
    assert!(src.read_exact_at(8, &mut buf).is_ok());
}

#[test]
fn steps_of_a_read() {
    assert!(matches!(read_step(Ok(3), 2, 10), ReadStep::More(5)));
    assert!(matches!(read_step(Ok(8), 2, 10), ReadStep::Done));
    assert!(matches!(read_step(Ok(0), 2, 10), ReadStep::Done));
    let torn = std::io::Error::new(std::io::ErrorKind::NotFound, "torn");
    match read_step(Err(torn), 2, 10) {
        ReadStep::Failed(e) => assert_eq!(e.kind(), std::io::ErrorKind::NotFound),
        _ => panic!("a failed read has to fail"),
    }
}

#[test]
fn reading_nothing_succeeds() {
    let src = Drip {
        data: Vec::new(),
        fails_at: 0,
    };
    assert!(src.read_exact_at(0, &mut []).is_ok());
}

#[test]
fn reads_behind_the_last_offset_give_nothing() {
    let data = [1u8, 2, 3];
    let src: &[u8] = &data;
    let mut buf = [9u8; 4];
    src.read_exact_at(u64::MAX, &mut buf).unwrap();
    src.read_exact_at(u64::MAX - 1, &mut buf).unwrap();
    assert_eq!(buf, [9; 4]);
}
