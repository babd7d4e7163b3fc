use patchsync::cli::{bar_step, key_file, key_of_file, BarStep};
use patchsync::error::Error;
use patchsync::path::FilePath;
use patchsync::sync::{
    frame_header, payload_len, Direction, FromProgress, RecvEvent, SendEvent, Transfer,
};

/// A stream that handles at most `step` bytes at a time and is closed after `left`.
struct Pipe {
    bytes: Vec<u8>,
    step: usize,
    left: usize,
}

impl Pipe {
    fn write(&mut self, data: &[u8]) -> usize {
        let n = data.len().min(self.step).min(self.left);
        self.bytes.extend_from_slice(&data[..n]);
        self.left -= n;
        n
    }

    fn read(&mut self, buf: &mut [u8]) -> usize {
        let n = buf.len().min(self.step).min(self.bytes.len());
        buf[..n].copy_from_slice(&self.bytes[..n]);
        self.bytes.drain(..n);
        n
    }
}

fn write_all(pipe: &mut Pipe, data: &[u8], events: &mut Vec<SendEvent>) -> Result<(), Error> {
    let mut transfer = Transfer::new(Direction::Write, data.len());
    while let Some(p) = transfer.position() {
        let n = pipe.write(&data[p..]);
        events.push(transfer.advance(n)?);
    }
    Ok(())
}

fn read_exact(pipe: &mut Pipe, buf: &mut [u8], events: &mut Vec<RecvEvent>) -> Result<(), Error> {
    let mut transfer = Transfer::new(Direction::Read, buf.len());
    while let Some(p) = transfer.position() {
        let n = pipe.read(&mut buf[p..]);
        events.push(transfer.advance(n)?);
    }
    Ok(())
}

fn sent_bytes(events: &[SendEvent]) -> usize {
    events
        .iter()
        .map(|e| match e {
            SendEvent::Progress { bytes } => *bytes,
            _ => panic!("Expected SendEvent::Progress"),
        })
        .sum()
}

fn received_bytes(events: &[RecvEvent]) -> usize {
    events
        .iter()
        .map(|e| match e {
            RecvEvent::Progress { bytes } => *bytes,
            _ => panic!("Expected RecvEvent::Progress"),
        })
        .sum()
}

#[test]
fn test_from_progress_events() {
    let se = SendEvent::from_bytes(100);
    match se {
        SendEvent::Progress { bytes } => assert_eq!(bytes, 100),
        _ => panic!("Expected SendEvent::Progress"),
    }

    let re = RecvEvent::from_bytes(200);
    match re {
        RecvEvent::Progress { bytes } => assert_eq!(bytes, 200),
        _ => panic!("Expected RecvEvent::Progress"),
    }
}

#[test]
fn test_tracked_stream_and_msg_roundtrip() {
    let payload = b"a message of some length".to_vec();
    let mut pipe = Pipe { bytes: vec![], step: 3, left: 1024 };
    let mut send_progress: Vec<SendEvent> = vec![];
    let mut recv_progress: Vec<RecvEvent> = vec![];

    write_all(&mut pipe, &frame_header(&payload), &mut send_progress).unwrap();
    write_all(&mut pipe, &payload, &mut send_progress).unwrap();

    let mut header = [0u8; 4];
    read_exact(&mut pipe, &mut header, &mut recv_progress).unwrap();
    let mut received = vec![0u8; payload_len(header)];
    read_exact(&mut pipe, &mut received, &mut recv_progress).unwrap();

    assert_eq!(received, payload);
    assert!(!send_progress.is_empty());
    assert!(!recv_progress.is_empty());
    assert_eq!(sent_bytes(&send_progress), payload.len() + 4);
    assert_eq!(received_bytes(&recv_progress), payload.len() + 4);
}

#[test]
fn test_tracked_stream_read_write_closed() {
    let mut pipe = Pipe { bytes: vec![], step: 1024, left: 4 };
    let mut recv_progress: Vec<RecvEvent> = vec![];
    let mut send_progress: Vec<SendEvent> = vec![];
    let mut buf = [0u8; 10];
    let e = read_exact(&mut pipe, &mut buf, &mut recv_progress).unwrap_err();
    assert!(matches!(e, Error::StreamClosedRead));
    let e = write_all(&mut pipe, &buf, &mut send_progress).unwrap_err();
    assert!(matches!(e, Error::StreamClosedWrite));
    assert_eq!(sent_bytes(&send_progress), 4);
}

#[test]
fn headers_are_little_endian() {
    assert_eq!(frame_header(&[]), [0, 0, 0, 0]);
    assert_eq!(frame_header(&[0u8; 258]), [2, 1, 0, 0]);
    assert_eq!(frame_header(&vec![0u8; 0x01_02_03]), [3, 2, 1, 0]);
    assert_eq!(payload_len([4, 3, 2, 1]), 0x01_02_03_04);
    assert_eq!(payload_len([255, 255, 255, 255]), 0xffff_ffff);
}

#[test]
fn a_frame_reads_back_whatever_follows() {
    for len in [0usize, 1, 255, 256, 70_000] {
        let payload: Vec<u8> = (0..len).map(|i| (i % 253) as u8).collect();
        let mut stream = frame_header(&payload).to_vec();
        stream.extend_from_slice(&payload);
        stream.extend_from_slice(b"rest");
        let n = payload_len([stream[0], stream[1], stream[2], stream[3]]);
        assert_eq!(n, payload.len());
        assert_eq!(&stream[4..4 + n], payload.as_slice());
        assert_eq!(&stream[4 + n..], b"rest");
    }
}

#[test]
fn a_transfer_is_complete_when_the_reports_add_up() {
    let mut t = Transfer::new(Direction::Read, 10);
    assert_eq!(t.position(), Some(0));
    assert!(matches!(t.advance::<SendEvent>(4), Ok(SendEvent::Progress { bytes: 4 })));
    assert_eq!(t.position(), Some(4));
    assert!(t.advance::<SendEvent>(0).is_err());
    assert_eq!(t.position(), Some(4));
    assert!(t.advance::<SendEvent>(5).is_ok());
    assert_eq!(t.position(), Some(9));
    assert!(t.advance::<SendEvent>(7).is_ok());
    assert_eq!(t.position(), None);
    assert_eq!(Transfer::new(Direction::Write, 0).position(), None);
}

#[test]
fn what_the_progress_bar_shows() {
    let event = SendEvent::DiffComputed { total_entries: 2, total_bytes: 77 };
    assert!(matches!(bar_step(&event), BarStep::Measure(77)));
    assert!(matches!(bar_step(&SendEvent::Progress { bytes: 5 }), BarStep::Advance(5)));
    assert!(matches!(bar_step(&SendEvent::Finished), BarStep::Finish));
    assert!(matches!(bar_step(&SendEvent::Started), BarStep::Print));
    assert!(matches!(bar_step(&SendEvent::Error("e".to_string())), BarStep::Print));
    let event = SendEvent::SnapshotReceived { entry_count: 1 };
    assert!(matches!(bar_step(&event), BarStep::Print));
}

#[test]
fn a_key_has_thirty_two_bytes() {
    let bytes: Vec<u8> = (0..32).collect();
    assert_eq!(key_of_file(&bytes).unwrap().to_vec(), bytes);
    assert!(key_of_file(&bytes[..31]).is_none());
    assert!(key_of_file(&[0u8; 33]).is_none());
    assert!(key_of_file(&[]).is_none());
}

#[test]
fn the_key_is_kept_in_the_root() {
    let root = FilePath::from_bytes(b"/some/root");
    assert_eq!(key_file(&root).display(), "/some/root/.patchsync_key");
    let root = FilePath::from_bytes(b"/some//root/");
    assert_eq!(key_file(&root).display(), "/some//root/.patchsync_key");
}
