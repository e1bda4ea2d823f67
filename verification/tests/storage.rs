//! Logs: reading, scanning, and the group-committing writer.

use std::cell::RefCell;
use std::rc::Rc;

use breezydb::data::transaction::{Transaction, TransactionScan};
use breezydb::error::{Error, ErrorKind};
use breezydb::storage::file::{
    fill_start, fill_step, AppendPlan, FileLog, FillStep, ReadOutcome,
};
use breezydb::storage::frame::{frame_encode_into, frame_scan_all, FrameScan, FRAME_MAX_SIZE};
use breezydb::storage::writer::{
    answered, append_permits, clone_err, Cmd, Committer, ReadHandle, MAX_BATCH,
};
use breezydb::storage::{follow, Reader, Step, Storage};

/// A log in memory.
struct Mem {
    bytes: Rc<RefCell<Vec<u8>>>,
    /// Appends fail from this one on.
    appends_left: usize,
    can_truncate: bool,
    cuts: usize,
}

fn outside(text: &str) -> Error {
    Error::Outside { kind: ErrorKind::StorageFull, code: Some(28), message: text.to_string() }
}

impl Mem {
    fn new(bytes: &[u8]) -> Self {
        Mem {
            bytes: Rc::new(RefCell::new(bytes.to_vec())),
            appends_left: usize::MAX,
            can_truncate: true,
            cuts: 0,
        }
    }
}

#[derive(Clone)]
struct MemReader {
    bytes: Vec<u8>,
    fails: bool,
}

impl Storage for Mem {
    type Reader = MemReader;

    fn append(&mut self, data: &[u8]) -> Result<u64, Error> {
        if self.appends_left == 0 {
            // Some of it got through.
            self.bytes.borrow_mut().extend_from_slice(&data[..data.len() / 2]);
            return Err(outside("disk full"));
        }
        self.appends_left -= 1;
        self.bytes.borrow_mut().extend_from_slice(data);
        Ok(data.len() as u64)
    }

    fn len(&self) -> u64 {
        self.bytes.borrow().len() as u64
    }

    fn is_empty(&self) -> bool {
        self.bytes.borrow().is_empty()
    }

    fn truncate(&mut self, offset: u64) -> Result<(), Error> {
        self.cuts += 1;
        if !self.can_truncate {
            return Err(outside("read-only"));
        }
        self.bytes.borrow_mut().truncate(offset as usize);
        Ok(())
    }

    fn reader(&self) -> MemReader {
        MemReader { bytes: self.bytes.borrow().clone(), fails: false }
    }
}

impl Reader for MemReader {
    fn read_at(&self, offset: u64, buf: &mut [u8]) -> Result<usize, Error> {
        if self.fails {
            return Err(outside("unreadable"));
        }
        let offset = offset as usize;
        if offset >= self.bytes.len() {
            return Ok(0);
        }
        let n = buf.len().min(self.bytes.len() - offset);
        buf[..n].copy_from_slice(&self.bytes[offset..offset + n]);
        Ok(n)
    }
}

fn reader(bytes: &[u8]) -> MemReader {
    Mem::new(bytes).reader()
}

// -- scans -------------------------------------------------------------------------------

#[test]
fn a_scan_goes_on_where_it_is_told() {
    let mut seen = Vec::new();
    let mut buf = [0u8; 4];
    let end = reader(b"abcdefghij").scan_all(&mut buf, |offset, chunk| {
        seen.push((offset, chunk.to_vec()));
        Ok(Step::Continue(offset + 3))
    });
    assert_eq!(end.unwrap(), 12);
    let want: Vec<(u64, Vec<u8>)> = vec![
        (0, b"abcd".to_vec()),
        (3, b"defg".to_vec()),
        (6, b"ghij".to_vec()),
        (9, b"j".to_vec()),
    ];
    assert_eq!(seen, want);
}

#[test]
fn a_scan_that_stops_reports_where_its_last_chunk_began() {
    let mut buf = [0u8; 4];
    let end = reader(b"abcdefghij").scan_all(&mut buf, |offset, _| {
        Ok(if offset == 4 { Step::Stop } else { Step::Continue(offset + 4) })
    });
    assert_eq!(end.unwrap(), 4);
    let end = reader(b"").scan_all(&mut buf, |_, _| panic!("nothing to visit"));
    assert_eq!(end.unwrap(), 0);
}

#[test]
fn a_scan_that_does_not_advance_is_refused() {
    let mut buf = [0u8; 4];
    let r = reader(b"abcdefghij");
    let e = r
        .scan_all(&mut buf, |offset, _| Ok(Step::Continue(if offset == 0 { 4 } else { 4 })))
        .unwrap_err();
    assert_eq!(e.kind(), ErrorKind::InvalidInput);
    assert_eq!(e.message(), "scan resumed at 4, which is not past 4");

    let e = r.scan_all(&mut [], |_, _| Ok(Step::Stop)).unwrap_err();
    assert_eq!(e.kind(), ErrorKind::InvalidInput);
    assert_eq!(e.message(), "scan buffer must be non-empty");
}

#[test]
fn a_scan_follows_the_steps_that_advance() {
    assert_eq!(follow(Step::Stop, 7).unwrap(), None);
    assert_eq!(follow(Step::Continue(8), 7).unwrap(), Some(8));
    let e = follow(Step::Continue(7), 7).unwrap_err();
    assert!(matches!(e, Error::ScanNotAdvancing { resume: 7, pos: 7 }));
}

#[test]
fn a_scan_hands_on_what_fails() {
    let mut buf = [0u8; 4];
    let e = reader(b"abc").scan_all(&mut buf, |_, _| Err(outside("enough"))).unwrap_err();
    assert_eq!(e.message(), "enough");
    let broken = MemReader { bytes: b"abc".to_vec(), fails: true };
    let e = broken.scan_all(&mut buf, |_, _| Ok(Step::Stop)).unwrap_err();
    assert_eq!(e.message(), "unreadable");
}

fn frame(seq: u64, payload: &[u8]) -> Vec<u8> {
    let mut buf = vec![0u8; payload.len() + 20];
    frame_encode_into(&mut buf, seq, payload).unwrap();
    buf
}

fn scan(log: &[u8]) -> Vec<(u64, u64, u32, Vec<u8>)> {
    let mut found = Vec::new();
    frame_scan_all(reader(log), |f| {
        found.push((f.offset, f.seq, f.len, f.payload.to_vec()));
        Ok(())
    })
    .unwrap();
    found
}

#[test]
fn a_scan_finds_every_frame() {
    let log = [frame(1, b"one"), frame(2, b""), frame(9, b"three")].concat();
    let want = vec![
        (0, 1, 23, b"one".to_vec()),
        (23, 2, 20, b"".to_vec()),
        (43, 9, 25, b"three".to_vec()),
    ];
    assert_eq!(scan(&log), want);
    assert_eq!(scan(&[]), vec![]);
}

#[test]
fn a_torn_tail_hides_nothing_before_it() {
    let mut log = [frame(1, b"one"), frame(2, b"two")].concat();
    let whole = scan(&log);
    log.extend_from_slice(&frame(3, b"three")[..24]);
    assert_eq!(scan(&log), whole);
    log.push(0);
    assert_eq!(scan(&log), whole, "the hash is wrong");
}

#[test]
fn a_scan_ends_where_the_sequences_do_not_ascend() {
    let log = [frame(5, b"one"), frame(5, b"two"), frame(6, b"three")].concat();
    assert_eq!(scan(&log).len(), 1);
    assert_eq!(scan(&frame(0, b"zero")).len(), 0);
}

#[test]
fn a_scan_passes_chunk_boundaries() {
    let big = vec![1u8; FRAME_MAX_SIZE as usize - 20];
    let log = [frame(1, b"small"), frame(2, &big), frame(3, b"last")].concat();
    let found: Vec<(u64, u64)> = scan(&log).into_iter().map(|f| (f.0, f.1)).collect();
    assert_eq!(found, vec![(0, 1), (25, 2), (25 + FRAME_MAX_SIZE as u64, 3)]);
}

#[test]
fn a_frame_scan_hands_on_what_fails() {
    let log = [frame(1, b"one"), frame(2, b"two")].concat();
    let mut calls = 0;
    let e = frame_scan_all(reader(&log), |_| {
        calls += 1;
        Err(outside("enough"))
    })
    .unwrap_err();
    assert_eq!((calls, e.message().as_str()), (1, "enough"));
    let broken = MemReader { bytes: log, fails: true };
    assert_eq!(frame_scan_all(broken, |_| Ok(())).unwrap_err().message(), "unreadable");
}

#[test]
fn a_frame_scan_gives_one_frame_after_the_other() {
    let log = [frame(1, b"one"), frame(2, b"two"), frame(2, b"stale")].concat();
    let mut scan = FrameScan::new(reader(&log));
    let one = scan.next().unwrap().expect("first frame");
    assert_eq!((one.offset, one.seq, one.len, one.payload), (0, 1, 23, b"one".as_slice()));
    let two = scan.next().unwrap().expect("second frame");
    assert_eq!((two.offset, two.seq, two.len, two.payload), (23, 2, 23, b"two".as_slice()));
    assert!(scan.next().unwrap().is_none());
    assert!(scan.next().unwrap().is_none());

    let mut scan = FrameScan::new(MemReader { bytes: log, fails: true });
    assert_eq!(scan.next().unwrap_err().message(), "unreadable");
    assert_eq!(scan.next().unwrap_err().message(), "unreadable");
}

#[test]
fn a_transaction_scan_gives_one_transaction_after_the_other() {
    let log = [txn((1, 2), b"one"), txn((3, 9), b""), txn((3, 2), b"stale")].concat();
    let mut scan = TransactionScan::new(reader(&log));
    let (one, at) = scan.next().unwrap().expect("first transaction");
    assert_eq!((one.size(), one.get_max_seq(), at), ((27, 27), 2, 0));
    let (two, at) = scan.next().unwrap().expect("second transaction");
    assert_eq!((two.size(), two.get_max_seq(), at), ((24, 24), 9, 27));
    assert!(scan.next().unwrap().is_none());
    assert!(scan.next().unwrap().is_none());

    let mut scan = TransactionScan::new(MemReader { bytes: log, fails: true });
    assert_eq!(scan.next().err().unwrap().message(), "unreadable");
}

fn txn(seq: (u64, u64), data: &[u8]) -> Vec<u8> {
    let mut txn = Transaction::new();
    txn.open();
    txn.add(seq, data);
    txn.commit().to_vec()
}

#[test]
fn a_scan_finds_every_transaction() {
    let log = [txn((1, 2), b"one"), txn((3, 3), b""), txn((3, 2), b"stale")].concat();
    let mut found = Vec::new();
    Transaction::scan_all(reader(&log), |t, offset| {
        found.push((offset, t.size()));
        Ok(())
    })
    .unwrap();
    assert_eq!(found, vec![(0, (27, 27)), (27, (24, 24))]);

    let e = Transaction::scan_all(reader(&log), |_, _| Err(outside("enough"))).unwrap_err();
    assert_eq!(e.message(), "enough");
    let broken = MemReader { bytes: log, fails: true };
    let e = Transaction::scan_all(broken, |_, _| Ok(())).unwrap_err();
    assert_eq!(e.message(), "unreadable");
}

#[test]
fn a_scan_of_transactions_goes_by_the_largest_sequence() {
    // The smallest sequences do not ascend, the largest do.
    let log = [txn((1, 5), b"one"), txn((1, 6), b"two"), txn((7, 6), b"stale")].concat();
    let mut found = 0;
    Transaction::scan_all(reader(&log), |_, _| {
        found += 1;
        Ok(())
    })
    .unwrap();
    assert_eq!(found, 2);
}

// -- the writer --------------------------------------------------------------------------

fn told(acks: Vec<(u8, Result<(), Error>)>) -> Vec<(u8, Option<String>)> {
    acks.into_iter().map(|(who, answer)| (who, answer.err().map(|e| e.message()))).collect()
}

#[test]
fn a_batch_is_appended_at_once_and_everybody_is_told() {
    let mut w = Committer::new(Mem::new(b"log:"));
    assert_eq!(w.visible(), 4);
    w.absorb(Cmd::Append { data: b"ab".to_vec(), ack: 1u8 });
    w.absorb(Cmd::Sync { ack: 2 });
    w.absorb(Cmd::Append { data: b"c".to_vec(), ack: 3 });
    assert_eq!(w.visible(), 4, "nothing is visible before it is durable");
    assert_eq!(told(w.commit()), vec![(1, None), (2, None), (3, None)]);
    assert_eq!(w.visible(), 7);
    assert_eq!(told(w.commit()), vec![]);
    w.repair();
    let store = w.finish().ok().unwrap();
    assert_eq!((store.bytes.borrow().as_slice(), store.cuts), (b"log:abc".as_slice(), 0));
}

#[test]
fn a_batch_has_a_soft_cap() {
    let mut w = Committer::new(Mem::new(b""));
    assert!(w.wants_more());
    w.absorb(Cmd::Append { data: vec![0; MAX_BATCH - 1], ack: 1u8 });
    assert!(w.wants_more());
    w.absorb(Cmd::Append { data: vec![0; 9], ack: 2 });
    assert!(!w.wants_more());
    w.commit();
    assert!(w.wants_more());
    assert_eq!(w.visible(), MAX_BATCH as u64 + 8);
}

#[test]
fn a_failure_stops_the_writer() {
    let mut store = Mem::new(b"log:");
    store.appends_left = 1;
    let log = Rc::clone(&store.bytes);
    let mut w = Committer::new(store);
    w.absorb(Cmd::Append { data: b"ab".to_vec(), ack: 1u8 });
    assert_eq!(told(w.commit()), vec![(1, None)]);

    let full = Some("disk full".to_string());
    w.absorb(Cmd::Append { data: b"cd".to_vec(), ack: 2 });
    w.absorb(Cmd::Sync { ack: 3 });
    assert_eq!(told(w.commit()), vec![(2, full.clone()), (3, full.clone())]);
    assert_eq!(w.visible(), 6);
    assert_eq!(log.borrow().as_slice(), b"log:abc", "a torn batch is behind what is visible");
    w.repair();
    assert_eq!(log.borrow().as_slice(), b"log:ab", "and is cut");

    w.absorb(Cmd::Append { data: b"ef".to_vec(), ack: 4 });
    assert_eq!(told(w.commit()), vec![(4, full)], "everything after it fails too");
    assert_eq!(w.visible(), 6);
    let e = w.finish().err().unwrap();
    assert_eq!((e.kind(), e.message().as_str()), (ErrorKind::StorageFull, "disk full"));
    assert_eq!(e.code(), Some(28));
}

#[test]
fn a_failed_repair_is_reported_too() {
    let mut store = Mem::new(b"log:");
    store.appends_left = 0;
    store.can_truncate = false;
    let mut w = Committer::new(store);
    w.absorb(Cmd::Append { data: b"ab".to_vec(), ack: 1u8 });
    assert_eq!(told(w.commit()), vec![(1, Some("disk full".to_string()))]);
    w.repair();
    w.absorb(Cmd::Sync { ack: 2 });
    let both = "disk full; repair failed: read-only".to_string();
    assert_eq!(told(w.commit()), vec![(2, Some(both))]);
    let e = w.finish().err().unwrap();
    assert_eq!((e.kind(), e.code()), (ErrorKind::Other, None));
}

#[test]
fn requests_are_bounded_and_answered() {
    let data = vec![0u8; FRAME_MAX_SIZE as usize + 1];
    let e = append_permits(&data).unwrap_err();
    assert_eq!((e.kind(), e.message().as_str()), (ErrorKind::InvalidInput, "frame to big"));
    assert_eq!(append_permits(&data[1..].to_vec()).unwrap(), FRAME_MAX_SIZE);

    assert!(answered(Some(Ok(()))).is_ok());
    assert_eq!(answered(Some(Err(outside("x")))).unwrap_err().message(), "x");
    assert_eq!(answered(None).unwrap_err().message(), "storage writer stopped");
    for kind in [ErrorKind::TimedOut, ErrorKind::NotFound, ErrorKind::Uncategorized] {
        let e = Error::Outside { kind, code: None, message: "late".to_string() };
        let copy = clone_err(&e);
        assert_eq!((copy.kind(), copy.code(), copy.message().as_str()), (kind, None, "late"));
    }
    let copy = clone_err(&Error::AppendTooBig);
    assert_eq!(copy.code(), None);
    assert_eq!((copy.kind(), copy.message().as_str()), (ErrorKind::InvalidInput, "frame to big"));
}

#[test]
fn reads_are_clamped_to_the_watermark() {
    let h = ReadHandle::new(reader(b"abcdefghij"), 4);
    assert_eq!((h.len(), h.is_empty()), (4, false));
    let mut buf = [b'.'; 6];
    assert_eq!(h.read_at(1, &mut buf).unwrap(), 3);
    assert_eq!(buf, *b"bcd...");
    assert_eq!(h.read_at(4, &mut buf).unwrap(), 0);
    assert_eq!(h.read_at(u64::MAX, &mut buf).unwrap(), 0);
    assert_eq!(h.read_at(0, &mut []).unwrap(), 0);
    assert_eq!(h.read_at(0, &mut buf[..2]).unwrap(), 2);
    assert_eq!(buf, *b"abd...");
    assert!(ReadHandle::new(reader(b"abc"), 0).is_empty());
}

#[test]
fn a_read_that_fails_is_reported_only_where_there_is_something_to_read() {
    let broken = MemReader { bytes: b"abc".to_vec(), fails: true };
    let h = ReadHandle::new(broken, 3);
    let mut buf = [b'.'; 5];
    assert_eq!(h.read_at(1, &mut buf).unwrap_err().message(), "unreadable");
    assert_eq!(buf[2..], *b"...", "nothing behind the watermark is touched");
    assert_eq!(h.read_at(3, &mut buf).unwrap(), 0);
}

// -- the file backend --------------------------------------------------------------------

#[test]
fn only_what_is_durable_counts() {
    let mut log = FileLog::open(10);
    assert!(!log.is_empty());
    assert_eq!(log.plan_append(b""), AppendPlan::SyncOnly);
    assert_eq!(log.plan_append(b"abc"), AppendPlan::WriteAt(10));
    assert!(log.appended(b"abc", Err(outside("disk full"))).is_err());
    assert_eq!(log.len(), 10);
    assert_eq!(log.appended(b"abc", Ok(())).unwrap(), 3);
    assert_eq!(log.len(), 13);

    let e = log.check_truncate(14).unwrap_err();
    assert_eq!(e.kind(), ErrorKind::InvalidInput);
    assert_eq!(e.message(), "cannot truncate to 14, past the durable length 13");
    assert!(log.check_truncate(13).is_ok());
    assert!(log.truncated(5, Err(outside("read-only"))).is_err());
    assert_eq!(log.len(), 13);
    assert!(log.truncated(0, Ok(())).is_ok());
    assert!(log.is_empty());
}

#[test]
fn a_read_goes_on_until_the_buffer_is_full_or_the_data_ends() {
    assert!(matches!(fill_start(0), FillStep::Done(0)));
    assert!(matches!(fill_start(5), FillStep::ReadFrom(0)));
    assert!(matches!(fill_step(0, 5, ReadOutcome::Bytes(3)), FillStep::ReadFrom(3)));
    assert!(matches!(fill_step(3, 5, ReadOutcome::Interrupted), FillStep::ReadFrom(3)));
    assert!(matches!(fill_step(3, 5, ReadOutcome::Bytes(2)), FillStep::Done(5)));
    assert!(matches!(fill_step(3, 5, ReadOutcome::Bytes(0)), FillStep::Done(3)));
    let failed = fill_step(3, 5, ReadOutcome::Failed(outside("unreadable")));
    assert!(matches!(failed, FillStep::Failed(e) if e.message() == "unreadable"));
}
