use qwal::record::WalData;
use qwal::{Error, WalFile};

#[test]
fn file() {
    let bytes = {
        let mut w = WalFile::open(Vec::new()).unwrap();

        assert_eq!(w.push(b"1".to_vec()).unwrap(), 1);
        assert_eq!(w.pop::<Vec<u8>>().unwrap(), Some((1, b"1".to_vec())));

        w.close()
    };
    let bytes = {
        let mut w = WalFile::open(bytes).unwrap();

        assert_eq!(w.pop::<Vec<u8>>().unwrap(), Some((1, b"1".to_vec())));
        w.ack(1);

        assert_eq!(w.push(b"22".to_vec()).unwrap(), 2);
        assert_eq!(w.pop::<Vec<u8>>().unwrap(), Some((2, b"22".to_vec())));
        w.close()
    };
    let bytes = {
        let mut w = WalFile::open(bytes).unwrap();
        assert_eq!(w.pop::<Vec<u8>>().unwrap(), Some((2, b"22".to_vec())));
        w.ack(2);

        assert_eq!(w.push(b"33".to_vec()).unwrap(), 3);
        assert_eq!(w.pop::<Vec<u8>>().unwrap(), Some((3, b"33".to_vec())));
        w.ack(3);

        w.close()
    };
    let mut w = WalFile::open(bytes).unwrap();
    assert_eq!(w.pop::<Vec<u8>>().unwrap(), None);
}

#[test]
fn fresh_chunk_cursors() {
    let mut w = WalFile::open(Vec::new()).unwrap();
    assert_eq!(w.next_idx_to_write(), 1);
    assert_eq!(w.next_idx_to_read(), 1);
    assert_eq!(w.ack_idx(), 0);
    assert_eq!(w.size(), 0);
    assert_eq!(w.pop::<Vec<u8>>().unwrap(), None);
    assert_eq!(w.close(), Vec::<u8>::new());
}

#[test]
fn push_writes_a_frame_and_moves_the_cursors() {
    let mut w = WalFile::open(Vec::new()).unwrap();
    assert_eq!(w.push(b"abc".to_vec()).unwrap(), 1);
    assert_eq!(w.size(), 35);
    assert_eq!(w.next_idx_to_write(), 2);
    let mut expected = Vec::new();
    WalData::Data { idx: 1, ack_idx: 0, data: b"abc".to_vec() }.write(&mut expected);
    assert_eq!(w.bytes(), &expected);
    assert_eq!(w.push_bytes(Vec::new()), 2);
    assert_eq!(w.size(), 67);
    WalData::Data { idx: 2, ack_idx: 0, data: Vec::new() }.write(&mut expected);
    assert_eq!(w.bytes(), &expected);
}

#[test]
fn preserve_ack_writes_a_marker() {
    let mut w = WalFile::open(Vec::new()).unwrap();
    assert_eq!(w.push(b"abc".to_vec()).unwrap(), 1);
    assert_eq!(w.pop_bytes().unwrap(), Some((1, b"abc".to_vec())));
    w.ack(1);
    w.preserve_ack();
    assert_eq!(w.size(), 35 + 32);
    let mut expected = Vec::new();
    WalData::Data { idx: 1, ack_idx: 0, data: b"abc".to_vec() }.write(&mut expected);
    WalData::Ack { idx: 1, ack_idx: 1 }.write(&mut expected);
    assert_eq!(w.bytes(), &expected);
    // the acknowledged index is written: closing adds nothing
    assert_eq!(w.close(), expected);
}

#[test]
fn close_persists_a_pending_ack_only() {
    let mut w = WalFile::open(Vec::new()).unwrap();
    assert_eq!(w.push(b"abc".to_vec()).unwrap(), 1);
    assert_eq!(w.pop_bytes().unwrap(), Some((1, b"abc".to_vec())));
    let unchanged = WalFile::open(w.bytes().clone()).unwrap().close();
    assert_eq!(unchanged.len(), 35);
    w.ack(1);
    let bytes = w.close();
    assert_eq!(bytes.len(), 35 + 32);
    assert_eq!(WalData::read(&bytes, 35).unwrap(), Some(WalData::Ack { idx: 1, ack_idx: 1 }));
}

#[test]
fn pop_passes_over_markers() {
    let mut bytes = Vec::new();
    WalData::Ack { idx: 4, ack_idx: 2 }.write(&mut bytes);
    WalData::Data { idx: 5, ack_idx: 2, data: b"five".to_vec() }.write(&mut bytes);
    WalData::Ack { idx: 5, ack_idx: 3 }.write(&mut bytes);
    WalData::Ack { idx: 5, ack_idx: 4 }.write(&mut bytes);
    WalData::Data { idx: 6, ack_idx: 4, data: b"six".to_vec() }.write(&mut bytes);
    let mut w = WalFile::open(bytes).unwrap();
    assert_eq!(w.ack_idx(), 4);
    assert_eq!(w.next_idx_to_write(), 7);
    assert_eq!(w.next_idx_to_read(), 5);
    assert_eq!(w.pop::<Vec<u8>>().unwrap(), Some((5, b"five".to_vec())));
    assert_eq!(w.next_idx_to_read(), 6);
    assert_eq!(w.pop::<Vec<u8>>().unwrap(), Some((6, b"six".to_vec())));
    assert_eq!(w.next_idx_to_read(), 7);
    assert_eq!(w.pop::<Vec<u8>>().unwrap(), None);
}

#[test]
fn seek_to_in_a_chunk() {
    let mut w = WalFile::open(Vec::new()).unwrap();
    for i in 1..=5u64 {
        assert_eq!(w.push(vec![i as u8]).unwrap(), i);
    }
    w.seek_to(3).unwrap();
    assert_eq!(w.next_idx_to_read(), 3);
    assert_eq!(w.pop::<Vec<u8>>().unwrap(), Some((3, vec![3u8])));
    // an index before the first record leaves the cursor on that record
    w.seek_to(0).unwrap();
    assert_eq!(w.next_idx_to_read(), 1);
    assert_eq!(w.pop::<Vec<u8>>().unwrap(), Some((1, vec![1u8])));
    w.seek_to(1).unwrap();
    assert_eq!(w.next_idx_to_read(), 1);
    assert_eq!(w.pop::<Vec<u8>>().unwrap(), Some((1, vec![1u8])));
    // an index behind the last record leaves the cursor at the end
    w.seek_to(10_000).unwrap();
    assert_eq!(w.next_idx_to_read(), 10_000);
    assert_eq!(w.pop::<Vec<u8>>().unwrap(), None);
    assert_eq!(w.push(vec![6u8]).unwrap(), 6);
    assert_eq!(w.pop::<Vec<u8>>().unwrap(), Some((6, vec![6u8])));
}

#[test]
fn seek_to_in_an_empty_chunk() {
    let mut w = WalFile::open(Vec::new()).unwrap();
    w.seek_to(5).unwrap();
    assert_eq!(w.next_idx_to_read(), 0);
    assert_eq!(w.pop::<Vec<u8>>().unwrap(), None);
}

#[test]
fn seek_to_meets_corruption() {
    let mut bytes = Vec::new();
    WalData::Data { idx: 1, ack_idx: 0, data: b"a".to_vec() }.write(&mut bytes);
    WalData::Data { idx: 2, ack_idx: 0, data: b"b".to_vec() }.write(&mut bytes);
    let mut w = WalFile::open(bytes.clone()).unwrap();
    w.seek_to(2).unwrap();
    let mut broken = bytes.clone();
    broken[65] = 9;
    // the last record is damaged: the file does not open
    assert!(matches!(WalFile::open(broken), Err(Error::InvalidEntry)));
    let mut broken = bytes;
    broken[32] = 9;
    WalData::Data { idx: 3, ack_idx: 0, data: b"c".to_vec() }.write(&mut broken);
    // the first record is damaged, the last is not: the seek of the open meets it
    assert!(matches!(WalFile::open(broken), Err(Error::InvalidEntry)));
}

#[test]
fn open_rejects_what_does_not_end_in_a_record() {
    assert!(matches!(WalFile::open(vec![0u8; 5]), Err(Error::InvalidFile)));
    assert!(matches!(WalFile::open(vec![0u8; 31]), Err(Error::InvalidFile)));
    // a trailing length that points before the file
    assert!(matches!(WalFile::open(vec![1u8; 40]), Err(Error::InvalidFile)));
    let mut bytes = Vec::new();
    WalData::Ack { idx: 1, ack_idx: 1 }.write(&mut bytes);
    bytes[0] = 0;
    // a trailing zero behind what is no acknowledgement
    assert!(matches!(WalFile::open(bytes), Err(Error::InvalidEntry)));
    let mut bytes = Vec::new();
    WalData::Data { idx: 1, ack_idx: 0, data: vec![1u8; 4] }.write(&mut bytes);
    for b in bytes.iter_mut().take(8) {
        *b = 0xff;
    }
    // the mark of an acknowledgement before a payload
    assert!(matches!(WalFile::open(bytes), Err(Error::InvalidAck)));
}

#[test]
fn pop_refuses_an_entry_that_no_read_index_can_follow() {
    let mut bytes = Vec::new();
    WalData::Data { idx: 1, ack_idx: 0, data: b"a".to_vec() }.write(&mut bytes);
    WalData::Data { idx: u64::MAX, ack_idx: 0, data: b"b".to_vec() }.write(&mut bytes);
    WalData::Data { idx: 3, ack_idx: 0, data: b"c".to_vec() }.write(&mut bytes);
    let mut w = WalFile::open(bytes).unwrap();
    assert_eq!(w.pop::<Vec<u8>>().unwrap(), Some((1, b"a".to_vec())));
    assert!(matches!(w.pop::<Vec<u8>>(), Err(Error::InvalidEntry)));
    // the read cursor stays before the record
    assert_eq!(w.next_idx_to_read(), 2);
    assert!(matches!(w.pop::<Vec<u8>>(), Err(Error::InvalidEntry)));
    // the record is the first at or above any index behind the first entry
    w.seek_to(3).unwrap();
    assert_eq!(w.next_idx_to_read(), 3);
    assert!(matches!(w.pop::<Vec<u8>>(), Err(Error::InvalidEntry)));
}

#[test]
fn open_refuses_a_last_record_that_no_index_can_follow() {
    let mut bytes = Vec::new();
    WalData::Data { idx: u64::MAX, ack_idx: 0, data: b"a".to_vec() }.write(&mut bytes);
    assert!(matches!(WalFile::open(bytes), Err(Error::InvalidFile)));
    let mut bytes = Vec::new();
    WalData::Data { idx: 1, ack_idx: u64::MAX, data: b"a".to_vec() }.write(&mut bytes);
    assert!(matches!(WalFile::open(bytes), Err(Error::InvalidFile)));
    let mut bytes = Vec::new();
    WalData::Ack { idx: u64::MAX, ack_idx: 1 }.write(&mut bytes);
    assert!(matches!(WalFile::open(bytes), Err(Error::InvalidFile)));
    let mut bytes = Vec::new();
    WalData::Ack { idx: u64::MAX - 1, ack_idx: u64::MAX - 1 }.write(&mut bytes);
    let w = WalFile::open(bytes).unwrap();
    assert_eq!(w.next_idx_to_write(), u64::MAX);
    assert_eq!(w.next_idx_to_read(), u64::MAX);
    assert_eq!(w.ack_idx(), u64::MAX - 1);
    assert!(!w.fits(0));
}

#[test]
fn inspect_lists_records_with_offsets() {
    let mut bytes = Vec::new();
    let first = WalData::Data { idx: 1, ack_idx: 0, data: b"one".to_vec() };
    let second = WalData::Ack { idx: 1, ack_idx: 1 };
    let third = WalData::Data { idx: 2, ack_idx: 1, data: Vec::new() };
    first.write(&mut bytes);
    second.write(&mut bytes);
    third.write(&mut bytes);
    assert_eq!(
        WalFile::inspect(&bytes).unwrap(),
        vec![(0, first.clone()), (35, second), (67, third)]
    );
    assert_eq!(WalFile::inspect(&Vec::new()).unwrap(), Vec::new());
    // a whole header and less than a frame: a record cut short
    bytes.truncate(95);
    assert!(matches!(WalFile::inspect(&bytes), Err(Error::InvalidEntry)));
    // less than a header: the end
    bytes.truncate(90);
    assert_eq!(WalFile::inspect(&bytes).unwrap().len(), 2);
    bytes.truncate(60);
    assert!(matches!(WalFile::inspect(&bytes), Err(Error::InvalidAck)));
    bytes.truncate(40);
    assert_eq!(WalFile::inspect(&bytes).unwrap(), vec![(0, first)]);
}

#[test]
fn successor_goes_on_where_a_chunk_ends() {
    let mut w = WalFile::open(Vec::new()).unwrap();
    assert_eq!(w.push(b"a".to_vec()).unwrap(), 1);
    assert_eq!(w.pop_bytes().unwrap(), Some((1, b"a".to_vec())));
    w.ack(1);
    let mut next = w.successor();
    assert_eq!(next.size(), 0);
    assert_eq!(next.next_idx_to_write(), 2);
    assert_eq!(next.next_idx_to_read(), 2);
    assert_eq!(next.ack_idx(), 1);
    assert_eq!(next.push(b"b".to_vec()).unwrap(), 2);
    assert_eq!(next.pop_bytes().unwrap(), Some((2, b"b".to_vec())));
    assert!(next.fits(10));
}
