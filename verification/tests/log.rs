use qwal::{Error, Wal};

fn names(files: &Vec<(String, Vec<u8>)>) -> Vec<String> {
    files.iter().map(|f| f.0.clone()).collect()
}

fn chunk_names(w: &Wal) -> Vec<String> {
    (0..=w.last_chunk()).map(|at| w.chunk_name(at)).collect()
}

fn name(idx: u64) -> String {
    format!("{:020}", idx)
}

#[test]
fn wal() {
    let files = {
        let mut w = Wal::open(Vec::new(), 50, 10).unwrap();
        assert_eq!(w.push(b"1".to_vec()).unwrap(), 1);
        assert_eq!(w.pop::<Vec<u8>>().unwrap(), Some((1, b"1".to_vec())));
        w.ack(1).unwrap();
        assert_eq!(w.push(b"22".to_vec()).unwrap(), 2);

        assert_eq!(w.pop::<Vec<u8>>().unwrap(), Some((2, b"22".to_vec())));
        w.close()
    };
    let files = {
        let mut w = Wal::open(files, 50, 10).unwrap();
        assert_eq!(w.pop::<Vec<u8>>().unwrap(), Some((2, b"22".to_vec())));

        w.revert().unwrap();

        assert_eq!(w.pop::<Vec<u8>>().unwrap(), Some((2, b"22".to_vec())));

        w.ack(2).unwrap();

        assert_eq!(w.push(b"333".to_vec()).unwrap(), 3);
        assert_eq!(w.pop::<Vec<u8>>().unwrap(), Some((3, b"333".to_vec())));
        w.ack(3).unwrap();

        w.close()
    };
    let mut w = Wal::open(files, 50, 10).unwrap();
    assert_eq!(w.pop::<Vec<u8>>().unwrap(), None);
}

#[test]
fn push_pop_ack_loop() {
    let mut w = Wal::open(Vec::new(), 50, 10).unwrap();
    assert_eq!(w.push(b"1".to_vec()).unwrap(), 1);
    assert_eq!(w.pop::<Vec<u8>>().unwrap(), Some((1, b"1".to_vec())));
    w.ack(1).unwrap();
    assert_eq!(w.push(b"22".to_vec()).unwrap(), 2);
    assert_eq!(w.pop::<Vec<u8>>().unwrap(), Some((2, b"22".to_vec())));
    let files = w.close();

    let mut w = Wal::open(files, 50, 10).unwrap();
    assert_eq!(w.pop::<Vec<u8>>().unwrap(), Some((2, b"22".to_vec())));
    w.ack(2).unwrap();
    assert_eq!(w.push(b"333".to_vec()).unwrap(), 3);
    assert_eq!(w.pop::<Vec<u8>>().unwrap(), Some((3, b"333".to_vec())));
    w.ack(3).unwrap();
    let files = w.close();

    let mut w = Wal::open(files, 50, 10).unwrap();
    assert_eq!(w.pop::<Vec<u8>>().unwrap(), None);
}

#[test]
fn revert_redelivers() {
    let mut w = Wal::open(Vec::new(), 50, 10).unwrap();
    assert_eq!(w.push(b"a".to_vec()).unwrap(), 1);
    assert_eq!(w.pop::<Vec<u8>>().unwrap(), Some((1, b"a".to_vec())));
    w.revert().unwrap();
    assert_eq!(w.pop::<Vec<u8>>().unwrap(), Some((1, b"a".to_vec())));
    w.ack(1).unwrap();
    let files = w.close();
    assert_eq!(names(&files), vec![name(0)]);
}

#[test]
fn revert_goes_back_to_a_sealed_chunk() {
    let mut w = Wal::open(Vec::new(), 50, 10).unwrap();
    for i in 1..=3u64 {
        assert_eq!(w.push(vec![i as u8; 30]).unwrap(), i);
    }
    assert_eq!(w.pop::<Vec<u8>>().unwrap(), Some((1, vec![1u8; 30])));
    w.ack(1).unwrap();
    assert_eq!(w.pop::<Vec<u8>>().unwrap(), Some((2, vec![2u8; 30])));
    assert_eq!(w.pop::<Vec<u8>>().unwrap(), Some((3, vec![3u8; 30])));
    w.revert().unwrap();
    assert_eq!(w.read_idx(), 2);
    assert_eq!(w.pop::<Vec<u8>>().unwrap(), Some((2, vec![2u8; 30])));
    assert_eq!(w.pop::<Vec<u8>>().unwrap(), Some((3, vec![3u8; 30])));
    assert_eq!(w.pop::<Vec<u8>>().unwrap(), None);
}

#[test]
fn rotation_adds_one_chunk_per_full_chunk() {
    let mut w = Wal::open(Vec::new(), 50, 10).unwrap();
    assert_eq!(chunk_names(&w), vec![name(0)]);
    let payload = vec![7u8; 100];
    for i in 1..=5u64 {
        let before = chunk_names(&w);
        assert_eq!(w.push(payload.clone()).unwrap(), i);
        let mut expected = before;
        expected.push(name(i + 1));
        assert_eq!(chunk_names(&w), expected);
        assert_eq!(w.chunk_index(w.last_chunk()), i + 1);
        // the new chunk begins with the acknowledged index
        assert_eq!(w.chunk_bytes(w.last_chunk()).len(), 32);
    }
    for i in 1..=5u64 {
        assert_eq!(w.pop::<Vec<u8>>().unwrap(), Some((i, payload.clone())));
    }
    w.ack(5).unwrap();
    // the chunk that holds entry 5 is followed by one that begins above 5: it stays
    assert_eq!(chunk_names(&w), vec![name(5), name(6)]);
    assert_eq!(w.pop::<Vec<u8>>().unwrap(), None);
    let files = w.close();
    assert_eq!(names(&files), vec![name(5), name(6)]);
}

#[test]
fn ack_lets_go_of_acknowledged_chunks_only() {
    let mut w = Wal::open(Vec::new(), 50, 10).unwrap();
    for i in 1..=4u64 {
        assert_eq!(w.push(vec![0u8; 60]).unwrap(), i);
    }
    assert_eq!(chunk_names(&w), vec![name(0), name(2), name(3), name(4), name(5)]);
    for i in 1..=3u64 {
        assert_eq!(w.pop::<Vec<u8>>().unwrap(), Some((i, vec![0u8; 60])));
    }
    w.ack(1).unwrap();
    assert_eq!(chunk_names(&w), vec![name(0), name(2), name(3), name(4), name(5)]);
    w.ack(2).unwrap();
    assert_eq!(chunk_names(&w), vec![name(2), name(3), name(4), name(5)]);
    assert_eq!(w.pop::<Vec<u8>>().unwrap(), Some((4, vec![0u8; 60])));
    w.ack(4).unwrap();
    assert_eq!(chunk_names(&w), vec![name(4), name(5)]);
    assert_eq!(w.ack_idx(), 4);
}

#[test]
fn size_exceeded() {
    let mut w = Wal::open(Vec::new(), 10, 1).unwrap();
    assert_eq!(w.push(b"a".to_vec()).unwrap(), 1);
    assert_eq!(chunk_names(&w), vec![name(0), name(2)]);
    assert!(matches!(w.push(b"b".to_vec()), Err(Error::SizeExceeded)));
    assert_eq!(chunk_names(&w), vec![name(0), name(2)]);
    // the entry was written all the same
    assert_eq!(w.pop::<Vec<u8>>().unwrap(), Some((1, b"a".to_vec())));
    assert_eq!(w.pop::<Vec<u8>>().unwrap(), Some((2, b"b".to_vec())));
}

#[test]
fn no_chunk_beyond_the_limit() {
    let mut w = Wal::open(Vec::new(), 10, 0).unwrap();
    assert!(matches!(w.push(b"a".to_vec()), Err(Error::SizeExceeded)));
    assert_eq!(w.last_chunk(), 0);
}

#[test]
fn corruption_detection() {
    let mut w = Wal::open(Vec::new(), 1000, 10).unwrap();
    assert_eq!(w.push(b"1".to_vec()).unwrap(), 1);
    assert_eq!(w.push(b"22".to_vec()).unwrap(), 2);
    assert_eq!(w.push(b"333".to_vec()).unwrap(), 3);
    let mut files = w.close();
    assert_eq!(files.len(), 1);
    files[0].1.pop();
    let r = Wal::open(files, 1000, 10);
    assert!(matches!(r, Err(Error::InvalidFile) | Err(Error::InvalidEntry)));
}

#[test]
fn corruption_behind_an_acknowledgement() {
    let mut w = Wal::open(Vec::new(), 1000, 10).unwrap();
    assert_eq!(w.push(vec![5u8; 3]).unwrap(), 1);
    assert_eq!(w.pop::<Vec<u8>>().unwrap(), Some((1, vec![5u8; 3])));
    w.ack(1).unwrap();
    let mut files = w.close();
    assert_eq!(files[0].1.len(), 35 + 32);
    files[0].1.pop();
    let r = Wal::open(files, 1000, 10);
    assert!(matches!(r, Err(Error::InvalidFile) | Err(Error::InvalidEntry)));
}

#[test]
fn seek_past_end_is_clamped() {
    let mut w = Wal::open(Vec::new(), 1000, 10).unwrap();
    for i in 1..=5u64 {
        assert_eq!(w.push(vec![i as u8]).unwrap(), i);
    }
    w.seek_to(10_000).unwrap();
    assert_eq!(w.pop::<Vec<u8>>().unwrap(), None);
    assert_eq!(w.pop::<Vec<u8>>().unwrap(), None);
    assert_eq!(w.push(vec![6u8]).unwrap(), 6);
    assert_eq!(w.pop::<Vec<u8>>().unwrap(), Some((6, vec![6u8])));
    assert_eq!(w.pop::<Vec<u8>>().unwrap(), None);
}

#[test]
fn seek_before_the_first_chunk_is_refused() {
    let mut w = Wal::open(Vec::new(), 50, 10).unwrap();
    for i in 1..=3u64 {
        assert_eq!(w.push(vec![0u8; 60]).unwrap(), i);
    }
    for i in 1..=3u64 {
        assert_eq!(w.pop::<Vec<u8>>().unwrap(), Some((i, vec![0u8; 60])));
    }
    w.ack(3).unwrap();
    assert_eq!(chunk_names(&w), vec![name(3), name(4)]);
    assert!(matches!(w.seek_to(2), Err(Error::InvalidIndex)));
    w.seek_to(3).unwrap();
    assert_eq!(w.pop::<Vec<u8>>().unwrap(), Some((3, vec![0u8; 60])));
}

#[test]
fn seek_finds_an_entry_in_any_chunk() {
    for target in [1u64, 2, 3, 4, 5, 6, 7] {
        let mut w = Wal::open(Vec::new(), 100, 10).unwrap();
        for i in 1..=7u64 {
            assert_eq!(w.push(vec![i as u8; 20]).unwrap(), i);
        }
        // two entries a chunk: 52 bytes each, over 100 with the second
        assert_eq!(chunk_names(&w), vec![name(0), name(3), name(5), name(7)]);
        w.seek_to(target).unwrap();
        assert_eq!(w.read_idx(), target);
        for i in target..=7 {
            assert_eq!(w.pop::<Vec<u8>>().unwrap(), Some((i, vec![i as u8; 20])));
        }
        assert_eq!(w.pop::<Vec<u8>>().unwrap(), None);
    }
}

#[test]
fn empty_log_has_nothing_to_pop() {
    let mut w = Wal::open(Vec::new(), 50, 10).unwrap();
    assert_eq!(w.pop::<Vec<u8>>().unwrap(), None);
    assert_eq!(w.pop::<Vec<u8>>().unwrap(), None);
    assert_eq!(chunk_names(&w), vec![name(0)]);
    assert_eq!(w.chunk_bytes(0).len(), 0);
    let files = w.close();
    assert_eq!(files, vec![(name(0), Vec::new())]);
    let mut w = Wal::open(files, 50, 10).unwrap();
    assert_eq!(w.pop::<Vec<u8>>().unwrap(), None);
    assert_eq!(w.push(b"x".to_vec()).unwrap(), 1);
    assert_eq!(w.pop::<Vec<u8>>().unwrap(), Some((1, b"x".to_vec())));
}

#[test]
fn push_to_exactly_chunk_size_does_not_rotate() {
    // an entry of 18 bytes takes 50 bytes
    let mut w = Wal::open(Vec::new(), 50, 10).unwrap();
    assert_eq!(w.push(vec![1u8; 18]).unwrap(), 1);
    assert_eq!(w.chunk_bytes(0).len(), 50);
    assert_eq!(chunk_names(&w), vec![name(0)]);
    assert_eq!(w.push(vec![2u8; 1]).unwrap(), 2);
    assert_eq!(chunk_names(&w), vec![name(0), name(3)]);
    assert_eq!(w.chunk_bytes(0).len(), 50 + 33);
    assert_eq!(w.pop::<Vec<u8>>().unwrap(), Some((1, vec![1u8; 18])));
    assert_eq!(w.pop::<Vec<u8>>().unwrap(), Some((2, vec![2u8; 1])));
    assert_eq!(w.pop::<Vec<u8>>().unwrap(), None);
}

#[test]
fn reopen_with_unflushed_ack_resumes_behind_it() {
    let mut w = Wal::open(Vec::new(), 1000, 10).unwrap();
    for i in 1..=3u64 {
        assert_eq!(w.push(vec![i as u8]).unwrap(), i);
    }
    assert_eq!(w.pop::<Vec<u8>>().unwrap(), Some((1, vec![1u8])));
    assert_eq!(w.pop::<Vec<u8>>().unwrap(), Some((2, vec![2u8])));
    w.ack(2).unwrap();
    let size = w.chunk_bytes(0).len();
    let files = w.close();
    // closing writes the acknowledged index behind the last record
    assert_eq!(files[0].1.len(), size + 32);
    let mut w = Wal::open(files, 1000, 10).unwrap();
    assert_eq!(w.ack_idx(), 2);
    assert_eq!(w.read_idx(), 3);
    assert_eq!(w.next_idx_to_write(), 4);
    assert_eq!(w.pop::<Vec<u8>>().unwrap(), Some((3, vec![3u8])));
    assert_eq!(w.pop::<Vec<u8>>().unwrap(), None);
}

#[test]
fn unacknowledged_entries_come_again_after_reopen() {
    let mut w = Wal::open(Vec::new(), 50, 10).unwrap();
    for i in 1..=4u64 {
        assert_eq!(w.push(vec![i as u8; 30]).unwrap(), i);
    }
    for i in 1..=4u64 {
        assert_eq!(w.pop::<Vec<u8>>().unwrap(), Some((i, vec![i as u8; 30])));
    }
    w.ack(3).unwrap();
    let files = w.close();
    assert_eq!(names(&files), vec![name(3), name(4), name(5)]);
    let mut w = Wal::open(files, 50, 10).unwrap();
    assert_eq!(w.read_idx(), 4);
    assert_eq!(w.pop::<Vec<u8>>().unwrap(), Some((4, vec![4u8; 30])));
    assert_eq!(w.pop::<Vec<u8>>().unwrap(), None);
}

#[test]
fn acknowledged_entries_do_not_come_again_after_reopen() {
    let mut w = Wal::open(Vec::new(), 50, 10).unwrap();
    for i in 1..=6u64 {
        assert_eq!(w.push(vec![i as u8; 30]).unwrap(), i);
    }
    assert_eq!(w.pop::<Vec<u8>>().unwrap(), Some((1, vec![1u8; 30])));
    assert_eq!(w.pop::<Vec<u8>>().unwrap(), Some((2, vec![2u8; 30])));
    w.ack(2).unwrap();
    let files = w.close();
    let mut w = Wal::open(files, 50, 10).unwrap();
    let mut seen = Vec::new();
    while let Some((idx, _)) = w.pop::<Vec<u8>>().unwrap() {
        seen.push(idx);
    }
    assert!(seen.iter().all(|idx| *idx > 2));
    // a revert reads on from the first entry that is not acknowledged
    w.revert().unwrap();
    for i in 3..=6u64 {
        assert_eq!(w.pop::<Vec<u8>>().unwrap(), Some((i, vec![i as u8; 30])));
    }
    assert_eq!(w.pop::<Vec<u8>>().unwrap(), None);
}

#[test]
fn reopen_reads_on_at_the_read_index_of_the_last_chunk() {
    let mut w = Wal::open(Vec::new(), 50, 10).unwrap();
    for i in 1..=3u64 {
        assert_eq!(w.push(vec![i as u8; 30]).unwrap(), i);
    }
    let files = w.close();
    assert_eq!(names(&files), vec![name(0), name(2), name(3), name(4)]);
    let mut w = Wal::open(files, 50, 10).unwrap();
    // the last chunk begins with a marker of index 3: reading is set there
    assert_eq!(w.read_idx(), 3);
    assert_eq!(w.pop::<Vec<u8>>().unwrap(), Some((3, vec![3u8; 30])));
    assert_eq!(w.pop::<Vec<u8>>().unwrap(), None);
    // a revert reads on from the first entry that is not acknowledged
    w.revert().unwrap();
    assert_eq!(w.read_idx(), 1);
    for i in 1..=3u64 {
        assert_eq!(w.pop::<Vec<u8>>().unwrap(), Some((i, vec![i as u8; 30])));
    }
    assert_eq!(w.pop::<Vec<u8>>().unwrap(), None);
}

#[test]
fn entries_of_the_last_chunk_that_were_read_stay_read_after_a_seek_before_it() {
    let mut w = Wal::open(Vec::new(), 100, 10).unwrap();
    for i in 1..=3u64 {
        assert_eq!(w.push(vec![i as u8; 20]).unwrap(), i);
    }
    // entries 1 and 2 are in the sealed chunk, entry 3 in the last
    assert_eq!(chunk_names(&w), vec![name(0), name(3)]);
    for i in 1..=3u64 {
        assert_eq!(w.pop::<Vec<u8>>().unwrap(), Some((i, vec![i as u8; 20])));
    }
    w.revert().unwrap();
    assert_eq!(w.pop::<Vec<u8>>().unwrap(), Some((1, vec![1u8; 20])));
    assert_eq!(w.pop::<Vec<u8>>().unwrap(), Some((2, vec![2u8; 20])));
    assert_eq!(w.pop::<Vec<u8>>().unwrap(), None);
}

#[test]
fn ack_is_not_idempotent() {
    let mut w = Wal::open(Vec::new(), 1000, 10).unwrap();
    assert!(matches!(w.ack(0), Err(Error::InvalidAckId)));
    assert_eq!(w.push(b"a".to_vec()).unwrap(), 1);
    assert_eq!(w.push(b"b".to_vec()).unwrap(), 2);
    // nothing was read yet
    assert!(matches!(w.ack(1), Err(Error::InvalidAckId)));
    assert_eq!(w.pop::<Vec<u8>>().unwrap(), Some((1, b"a".to_vec())));
    assert!(matches!(w.ack(2), Err(Error::InvalidAckId)));
    w.ack(1).unwrap();
    assert!(matches!(w.ack(1), Err(Error::InvalidAckId)));
    assert!(matches!(w.ack(0), Err(Error::InvalidAckId)));
    assert_eq!(w.ack_idx(), 1);
    assert_eq!(w.pop::<Vec<u8>>().unwrap(), Some((2, b"b".to_vec())));
    w.ack(2).unwrap();
    assert!(matches!(w.ack(2), Err(Error::InvalidAckId)));
}

#[test]
fn pops_return_entries_in_the_order_of_their_pushes() {
    let mut w = Wal::open(Vec::new(), 80, 100).unwrap();
    let mut pushed = 0u64;
    let mut popped = 0u64;
    for round in 0..20u64 {
        for _ in 0..(round % 4) + 1 {
            pushed += 1;
            let payload = vec![pushed as u8; (pushed % 40) as usize];
            assert_eq!(w.push(payload).unwrap(), pushed);
        }
        for _ in 0..(round % 3) + 1 {
            let got = w.pop::<Vec<u8>>().unwrap();
            if popped < pushed {
                popped += 1;
                assert_eq!(got, Some((popped, vec![popped as u8; (popped % 40) as usize])));
            } else {
                assert_eq!(got, None);
            }
        }
    }
    while popped < pushed {
        popped += 1;
        assert_eq!(
            w.pop::<Vec<u8>>().unwrap(),
            Some((popped, vec![popped as u8; (popped % 40) as usize]))
        );
    }
    assert_eq!(w.pop::<Vec<u8>>().unwrap(), None);
}

#[test]
fn push_then_pop_on_a_fresh_log() {
    for size in [0usize, 1, 18, 19, 100] {
        let mut w = Wal::open(Vec::new(), 50, 10).unwrap();
        let idx = w.push(vec![3u8; size]).unwrap();
        assert_eq!(idx, 1);
        assert_eq!(w.pop::<Vec<u8>>().unwrap(), Some((idx, vec![3u8; size])));
    }
}

#[test]
fn files_that_are_no_chunks_are_refused() {
    let r = Wal::open(vec![("wal.file".to_string(), Vec::new())], 50, 10);
    assert!(matches!(r, Err(Error::NotAFile)));
    let r = Wal::open(vec![(name(0), Vec::new()), ("7".to_string(), Vec::new())], 50, 10);
    assert!(matches!(r, Err(Error::NotAFile)));
}

#[test]
fn files_are_opened_in_the_order_of_their_indices() {
    let mut w = Wal::open(Vec::new(), 50, 10).unwrap();
    for i in 1..=3u64 {
        assert_eq!(w.push(vec![i as u8; 30]).unwrap(), i);
    }
    let mut files = w.close();
    assert_eq!(names(&files), vec![name(0), name(2), name(3), name(4)]);
    files.reverse();
    let mut w = Wal::open(files, 50, 10).unwrap();
    assert_eq!(chunk_names(&w), vec![name(0), name(2), name(3), name(4)]);
    assert_eq!(w.next_idx_to_write(), 4);
    w.revert().unwrap();
    for i in 1..=3u64 {
        assert_eq!(w.pop::<Vec<u8>>().unwrap(), Some((i, vec![i as u8; 30])));
    }
    assert_eq!(w.push(vec![4u8; 30]).unwrap(), 4);
    assert_eq!(w.pop::<Vec<u8>>().unwrap(), Some((4, vec![4u8; 30])));
}

#[test]
fn a_file_that_is_too_short_is_invalid() {
    let r = Wal::open(vec![(name(0), vec![0u8; 7])], 50, 10);
    assert!(matches!(r, Err(Error::InvalidFile)));
    let r = Wal::open(vec![(name(0), vec![0u8; 8])], 50, 10);
    assert!(matches!(r, Err(Error::InvalidFile)));
}

#[test]
fn fits_tells_what_can_be_pushed() {
    let w = Wal::open(Vec::new(), 50, 10).unwrap();
    assert!(w.fits(0));
    assert!(w.fits(1 << 20));
    assert!(!w.fits(usize::MAX - 31));
    assert!(w.fits(usize::MAX - 32));
}
