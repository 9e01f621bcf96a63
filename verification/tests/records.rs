use qwal::entry::Entry;
use qwal::names::parse_file_name;
use qwal::record::WalData;
use qwal::{Error, Wal, WalFile};

/// An entry that serializes only when it is told to, and deserializes
/// only payloads that are not empty.
struct Picky {
    ok: bool,
    bytes: Vec<u8>,
}

#[derive(Debug, PartialEq)]
struct Refused;

impl Entry for Picky {
    type Output = Vec<u8>;
    type Error = Refused;

    fn serialize(self) -> Result<Vec<u8>, Refused> {
        if self.ok {
            Ok(self.bytes)
        } else {
            Err(Refused)
        }
    }

    fn deserialize(data: Vec<u8>) -> Result<Vec<u8>, Refused> {
        if data.is_empty() {
            Err(Refused)
        } else {
            Ok(data)
        }
    }
}

#[test]
fn data_frame_bytes() {
    let mut buf: Vec<u8> = vec![9, 9];
    let n = WalData::Data { idx: 3, ack_idx: 2, data: b"abc".to_vec() }.write(&mut buf);
    assert_eq!(n, 35);
    assert_eq!(
        buf,
        vec![
            9, 9, // what stood there before
            0, 0, 0, 0, 0, 0, 0, 3, // len
            0, 0, 0, 0, 0, 0, 0, 3, // idx
            0, 0, 0, 0, 0, 0, 0, 2, // ack_idx
            b'a', b'b', b'c', // payload
            0, 0, 0, 0, 0, 0, 0, 3, // len once more
        ]
    );
}

#[test]
fn ack_frame_bytes() {
    let mut buf: Vec<u8> = Vec::new();
    let n = WalData::Ack { idx: 0x0102030405060708, ack_idx: 1 }.write(&mut buf);
    assert_eq!(n, 32);
    assert_eq!(
        buf,
        vec![
            0xff, 0xff, 0xff, 0xff, 0xff, 0xff, 0xff, 0xff, // mark of an acknowledgement
            1, 2, 3, 4, 5, 6, 7, 8, // idx
            0, 0, 0, 0, 0, 0, 0, 1, // ack_idx
            0, 0, 0, 0, 0, 0, 0, 0, // zero at the end
        ]
    );
}

#[test]
fn records_are_read_back() {
    let mut buf: Vec<u8> = Vec::new();
    let first = WalData::Data { idx: 7, ack_idx: 5, data: vec![1, 2, 3, 4, 5] };
    let second = WalData::Ack { idx: 7, ack_idx: 6 };
    let third = WalData::Data { idx: 8, ack_idx: 6, data: Vec::new() };
    assert_eq!(first.write(&mut buf), 37);
    assert_eq!(second.write(&mut buf), 32);
    assert_eq!(third.write(&mut buf), 32);
    assert_eq!(WalData::read(&buf, 0).unwrap(), Some(first));
    assert_eq!(WalData::read(&buf, 37).unwrap(), Some(second));
    assert_eq!(WalData::read(&buf, 69).unwrap(), Some(third));
    assert_eq!(WalData::read(&buf, 101).unwrap(), None);
}

#[test]
fn record_getters() {
    let data = WalData::Data { idx: 7, ack_idx: 5, data: vec![1] };
    let ack = WalData::Ack { idx: 9, ack_idx: 8 };
    assert_eq!(data.idx(), 7);
    assert_eq!(data.ack_idx(), 5);
    assert_eq!(ack.idx(), 9);
    assert_eq!(ack.ack_idx(), 8);
    assert_eq!(data.size_on_disk(), 33);
    assert_eq!(ack.size_on_disk(), 32);
}

#[test]
fn size_on_disk_from_len_values() {
    assert_eq!(WalData::size_on_disk_from_len(0), 32);
    assert_eq!(WalData::size_on_disk_from_len(100), 132);
    assert_eq!(WalData::size_on_disk_from_len(u64::MAX), 32);
    assert_eq!(WalData::size_on_disk_from_len(u64::MAX - 32), u64::MAX);
}

#[test]
fn short_header_is_the_end() {
    let mut buf: Vec<u8> = Vec::new();
    WalData::Ack { idx: 1, ack_idx: 1 }.write(&mut buf);
    buf.truncate(23);
    assert_eq!(WalData::read(&buf, 0).unwrap(), None);
    assert_eq!(WalData::read(&Vec::new(), 0).unwrap(), None);
}

#[test]
fn ack_that_does_not_end_in_zero_is_invalid() {
    let mut buf: Vec<u8> = Vec::new();
    WalData::Ack { idx: 1, ack_idx: 1 }.write(&mut buf);
    buf[31] = 1;
    assert!(matches!(WalData::read(&buf, 0), Err(Error::InvalidAck)));
}

#[test]
fn ack_cut_short_is_invalid() {
    let mut buf: Vec<u8> = Vec::new();
    WalData::Ack { idx: 1, ack_idx: 1 }.write(&mut buf);
    buf.truncate(31);
    assert!(matches!(WalData::read(&buf, 0), Err(Error::InvalidAck)));
}

#[test]
fn data_with_wrong_trailing_length_is_invalid() {
    let mut buf: Vec<u8> = Vec::new();
    WalData::Data { idx: 1, ack_idx: 0, data: b"abc".to_vec() }.write(&mut buf);
    buf[34] = 4;
    assert!(matches!(WalData::read(&buf, 0), Err(Error::InvalidEntry)));
}

#[test]
fn data_cut_short_is_invalid() {
    let mut buf: Vec<u8> = Vec::new();
    WalData::Data { idx: 1, ack_idx: 0, data: b"abc".to_vec() }.write(&mut buf);
    buf.truncate(34);
    assert!(matches!(WalData::read(&buf, 0), Err(Error::InvalidEntry)));
    buf.truncate(25);
    assert!(matches!(WalData::read(&buf, 0), Err(Error::InvalidEntry)));
}

#[test]
fn records_with_the_greatest_index_are_read_back() {
    let records = vec![
        WalData::Data { idx: u64::MAX, ack_idx: 0, data: Vec::new() },
        WalData::Data { idx: 1, ack_idx: u64::MAX, data: b"abc".to_vec() },
        WalData::Data { idx: u64::MAX, ack_idx: u64::MAX, data: vec![0xff; 9] },
        WalData::Ack { idx: u64::MAX, ack_idx: 1 },
        WalData::Ack { idx: 1, ack_idx: u64::MAX },
        WalData::Ack { idx: u64::MAX, ack_idx: u64::MAX },
    ];
    let mut buf: Vec<u8> = Vec::new();
    let mut offsets = Vec::new();
    for r in &records {
        offsets.push(buf.len());
        assert_eq!(r.write(&mut buf), r.size_on_disk());
    }
    buf.extend_from_slice(&[1, 2, 3]);
    for (r, at) in records.iter().zip(offsets.iter()) {
        assert_eq!(WalData::read(&buf, *at).unwrap(), Some(r.clone()));
    }
    let listed = WalFile::inspect(&buf).unwrap();
    assert_eq!(listed.len(), records.len());
    for (i, (at, r)) in listed.iter().enumerate() {
        assert_eq!(*at, offsets[i] as u64);
        assert_eq!(r, &records[i]);
    }
}

#[test]
fn chunk_names_are_twenty_digits() {
    assert_eq!(parse_file_name("00000000000000000000"), Some(0));
    assert_eq!(parse_file_name("00000000000000000042"), Some(42));
    assert_eq!(parse_file_name("18446744073709551615"), Some(u64::MAX));
    assert_eq!(parse_file_name("18446744073709551616"), None);
    assert_eq!(parse_file_name("99999999999999999999"), None);
    assert_eq!(parse_file_name("42"), None);
    assert_eq!(parse_file_name(""), None);
    assert_eq!(parse_file_name("000000000000000000042"), None);
    assert_eq!(parse_file_name("+0000000000000000042"), None);
    assert_eq!(parse_file_name("0000000000000000004x"), None);
    assert_eq!(parse_file_name("0000000000000000004\u{e9}"), None);
    assert_eq!(parse_file_name("wal.file"), None);
}

#[test]
fn bytes_are_their_own_entry() {
    let v = vec![1u8, 2, 3];
    let bytes = v.clone().serialize().unwrap();
    assert_eq!(bytes, v);
    assert_eq!(<Vec<u8> as Entry>::deserialize(bytes).unwrap(), v);
    let slice: &[u8] = &[4, 5];
    let bytes = slice.serialize().unwrap();
    assert_eq!(bytes, vec![4, 5]);
    assert_eq!(<&[u8] as Entry>::deserialize(bytes).unwrap(), vec![4, 5]);
    assert_eq!(<Vec<u8> as Entry>::deserialize(Vec::new()).unwrap(), Vec::<u8>::new());
}

#[test]
fn entry_that_does_not_serialize_changes_nothing() {
    let mut w = Wal::open(Vec::new(), 50, 10).unwrap();
    let r = w.push(Picky { ok: false, bytes: vec![1] });
    assert!(matches!(r, Err(Error::Entry(Refused))));
    assert_eq!(w.next_idx_to_write(), 1);
    assert_eq!(w.push(Picky { ok: true, bytes: vec![1] }).unwrap(), 1);
    assert_eq!(w.pop::<Picky>().unwrap(), Some((1, vec![1])));

    let mut f = WalFile::open(Vec::new()).unwrap();
    assert!(matches!(f.push(Picky { ok: false, bytes: vec![1] }), Err(Error::Entry(Refused))));
    assert_eq!(f.size(), 0);
    assert_eq!(f.next_idx_to_write(), 1);
}

#[test]
fn entry_that_does_not_deserialize_is_passed_over() {
    let mut w = Wal::open(Vec::new(), 1000, 10).unwrap();
    assert_eq!(w.push(Vec::<u8>::new()).unwrap(), 1);
    assert_eq!(w.push(vec![2u8]).unwrap(), 2);
    assert!(matches!(w.pop::<Picky>(), Err(Error::Entry(Refused))));
    assert_eq!(w.read_idx(), 2);
    assert_eq!(w.pop::<Picky>().unwrap(), Some((2, vec![2])));
}

#[test]
fn error_messages() {
    let texts: Vec<String> = vec![
        Error::<Refused>::NotADirectory.message(),
        Error::<Refused>::NotAFile.message(),
        Error::<Refused>::InvalidAck.message(),
        Error::<Refused>::InvalidEntry.message(),
        Error::<Refused>::InvalidFile.message(),
        Error::<Refused>::SizeExceeded.message(),
        Error::<Refused>::InvalidAckId.message(),
        Error::<Refused>::InvalidIndex.message(),
        Error::Entry(Refused).message(),
    ];
    assert_eq!(
        texts,
        vec![
            "Not a directory",
            "Not a file",
            "Invalid WAL entry (ACK)",
            "Invalid WAL entry (Entry)",
            "Invalid WAL File",
            "WAL Size Exceeded",
            "Invalid Ack Index",
            "Invalid Index",
            "Invalid Entry",
        ]
    );
    let io = std::io::Error::new(std::io::ErrorKind::Other, "disk on fire");
    assert_eq!(Error::<Refused>::from(io).message(), "disk on fire");
}
