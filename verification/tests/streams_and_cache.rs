use futures::channel::mpsc::{unbounded, UnboundedReceiver, UnboundedSender};
use radio_replay::audio_service::{frame_samples, METADATA_SENT_ON_INITIAL_LOAD};
use radio_replay::audio_stream::{ChunkPoll, LiveReader, ReadOutcome, ReadStep};
use radio_replay::encoder::{after_encode, mp3_buffer_size, EncodeResult, EncodeStep};
use radio_replay::recent_cache::{retain_delivered, RecentLog};
use std::collections::VecDeque;

#[test]
fn read_without_chunk_waits_or_ends() {
    let mut reader = LiveReader::new();
    let mut buf = [0u8; 4];
    assert_eq!(reader.begin_read(&mut buf), ReadStep::NeedChunk);
    assert_eq!(reader.chunk_arrived(&mut buf, ChunkPoll::Pending), ReadStep::Done(ReadOutcome::Pending));
    assert_eq!(reader.begin_read(&mut buf), ReadStep::NeedChunk);
    assert_eq!(reader.chunk_arrived(&mut buf, ChunkPoll::Closed), ReadStep::Done(ReadOutcome::Read(0)));
    assert_eq!(buf, [0, 0, 0, 0]);
}

#[test]
fn read_spans_chunks_and_keeps_the_rest() {
    let mut reader = LiveReader::new();
    let mut buf = [0u8; 5];
    assert_eq!(reader.begin_read(&mut buf), ReadStep::NeedChunk);
    assert_eq!(reader.chunk_arrived(&mut buf, ChunkPoll::Ready(vec![1, 2, 3])), ReadStep::NeedChunk);
    assert_eq!(
        reader.chunk_arrived(&mut buf, ChunkPoll::Ready(vec![4, 5, 6, 7])),
        ReadStep::Done(ReadOutcome::Read(5))
    );
    assert_eq!(buf, [1, 2, 3, 4, 5]);

    let mut small = [9u8; 1];
    assert_eq!(reader.begin_read(&mut small), ReadStep::Done(ReadOutcome::Read(1)));
    assert_eq!(small, [6]);

    let mut buf = [0u8; 4];
    assert_eq!(reader.begin_read(&mut buf), ReadStep::NeedChunk);
    assert_eq!(reader.chunk_arrived(&mut buf, ChunkPoll::Pending), ReadStep::Done(ReadOutcome::Read(1)));
    assert_eq!(buf, [7, 0, 0, 0]);
}

#[test]
fn empty_chunk_asks_for_the_next() {
    let mut reader = LiveReader::new();
    let mut buf = [0u8; 2];
    assert_eq!(reader.begin_read(&mut buf), ReadStep::NeedChunk);
    assert_eq!(reader.chunk_arrived(&mut buf, ChunkPoll::Ready(vec![])), ReadStep::NeedChunk);
    assert_eq!(reader.chunk_arrived(&mut buf, ChunkPoll::Ready(vec![8, 9])), ReadStep::NeedChunk);
    assert_eq!(reader.chunk_arrived(&mut buf, ChunkPoll::Closed), ReadStep::Done(ReadOutcome::Read(2)));
    assert_eq!(buf, [8, 9]);
}

#[test]
fn zero_length_buffer_reads_nothing() {
    let mut reader = LiveReader::new();
    let mut buf = [0u8; 0];
    assert_eq!(reader.begin_read(&mut buf), ReadStep::NeedChunk);
    assert_eq!(reader.chunk_arrived(&mut buf, ChunkPoll::Ready(vec![1])), ReadStep::Done(ReadOutcome::Read(0)));
    let mut buf = [0u8; 1];
    assert_eq!(reader.begin_read(&mut buf), ReadStep::NeedChunk);
    assert_eq!(buf, [1]);
}

type Log<T> = RecentLog<T, UnboundedSender<T>>;

/// Hands a new message to a cache and delivers the copies, as the server's
/// handler task does.
fn send_message<T: Clone>(log: &mut Log<T>, item: T) {
    let outgoing = log.on_message(item);
    let delivered: Vec<bool> = log
        .listener_handles()
        .iter()
        .zip(outgoing)
        .map(|(sender, copy)| sender.unbounded_send(copy).is_ok())
        .collect();
    log.on_delivered(&delivered);
}

/// Subscribes a new receiver to a cache, as the server's handler task does.
fn subscribe<T: Clone>(log: &mut Log<T>) -> UnboundedReceiver<T> {
    let (tx, rx) = unbounded();
    let replay = log.on_listener(tx.clone());
    for message in replay {
        let _ = tx.unbounded_send(message);
    }
    rx
}

fn drain<T>(rx: &mut UnboundedReceiver<T>) -> Vec<T> {
    let mut out = Vec::new();
    while let Ok(Some(x)) = rx.try_next() {
        out.push(x);
    }
    out
}

#[test]
fn cache_keeps_the_most_recent_messages() {
    let mut log: Log<u32> = RecentLog::new(Some(2));
    send_message(&mut log, 1);
    send_message(&mut log, 2);
    send_message(&mut log, 3);
    assert_eq!(log.recent().iter().copied().collect::<Vec<u32>>(), vec![2, 3]);
}

#[test]
fn cache_without_capacity_keeps_everything() {
    let mut log: Log<u32> = RecentLog::new(None);
    send_message(&mut log, 1);
    send_message(&mut log, 2);
    let mut rx = subscribe(&mut log);
    send_message(&mut log, 3);
    assert_eq!(drain(&mut rx), vec![1, 2, 3]);
}

#[test]
fn cache_of_capacity_zero_keeps_nothing() {
    let mut log: Log<u32> = RecentLog::new(Some(0));
    send_message(&mut log, 1);
    assert!(log.recent().is_empty());
    let mut rx = subscribe(&mut log);
    assert!(rx.try_next().is_err());
    send_message(&mut log, 2);
    assert_eq!(drain(&mut rx), vec![2]);
}

#[test]
fn capacity_one_replays_the_last_message() {
    let mut log: Log<u32> = RecentLog::new(Some(1));
    send_message(&mut log, 7);
    let mut rx = subscribe(&mut log);
    assert_eq!(drain(&mut rx), vec![7]);
}

#[test]
fn new_listener_gets_recent_then_later_messages() {
    let mut log: Log<u32> = RecentLog::new(Some(3));
    for m in 1..=4 {
        send_message(&mut log, m);
    }
    let mut rx = subscribe(&mut log);
    assert_eq!(log.listener_count(), 1);
    assert_eq!(drain(&mut rx), vec![2, 3, 4]);
    assert!(rx.try_next().is_err());
    send_message(&mut log, 5);
    assert_eq!(drain(&mut rx), vec![5]);
    assert_eq!(log.recent().iter().copied().collect::<Vec<u32>>(), vec![3, 4, 5]);
}

#[test]
fn step_results_name_what_each_listener_is_handed() {
    let mut log: RecentLog<u32, &str> = RecentLog::new(Some(2));
    assert_eq!(log.on_listener("early"), Vec::<u32>::new());
    assert_eq!(log.on_message(10), vec![10]);
    log.on_delivered(&[true]);
    assert_eq!(log.on_message(20), vec![20]);
    log.on_delivered(&[true]);
    assert_eq!(log.on_message(30), vec![30]);
    log.on_delivered(&[true]);
    assert_eq!(log.on_listener("late"), vec![20, 30]);
    assert_eq!(log.on_message(40), vec![40, 40]);
    log.on_delivered(&[false, true]);
    assert_eq!(log.listener_handles().iter().copied().collect::<Vec<&str>>(), vec!["late"]);
}

#[test]
fn earlier_receivers_are_unaffected_by_a_new_one() {
    let mut log: Log<u32> = RecentLog::new(Some(2));
    let mut r0 = subscribe(&mut log);
    send_message(&mut log, 10);
    send_message(&mut log, 20);
    send_message(&mut log, 30);
    assert_eq!(drain(&mut r0), vec![10, 20, 30]);
    let mut r = subscribe(&mut log);
    assert!(r0.try_next().is_err());
    assert_eq!(drain(&mut r), vec![20, 30]);
    assert!(r.try_next().is_err());
}

#[test]
fn listener_whose_receiver_is_gone_is_dropped() {
    let mut log: Log<String> = RecentLog::new(Some(5));
    let rx1 = subscribe(&mut log);
    let mut rx2 = subscribe(&mut log);
    drop(rx1);
    send_message(&mut log, String::from("a"));
    assert_eq!(log.listener_count(), 1);
    assert_eq!(drain(&mut rx2), vec![String::from("a")]);
}

#[test]
fn metadata_cache_replays_four_hundred_items() {
    let mut log: Log<u32> = RecentLog::new(Some(METADATA_SENT_ON_INITIAL_LOAD));
    for m in 0..450 {
        send_message(&mut log, m);
    }
    let mut rx = subscribe(&mut log);
    assert_eq!(drain(&mut rx), (50..450).collect::<Vec<u32>>());
}

#[test]
fn retain_keeps_delivered_in_order() {
    let mut items: VecDeque<char> = "abcde".chars().collect();
    retain_delivered(&mut items, &[true, false, true, false, true]);
    assert_eq!(items.into_iter().collect::<String>(), "ace");
    let mut none: VecDeque<u8> = VecDeque::new();
    retain_delivered(&mut none, &[]);
    assert!(none.is_empty());
}

#[test]
fn frame_samples_scale_and_clip() {
    let frame = vec![vec![1, -1, 268_435_455, 268_435_456, -268_435_456, -268_435_457, 0], vec![5]];
    assert_eq!(
        frame_samples(&frame),
        vec![8, -8, 2_147_483_640, i32::MAX, i32::MIN, i32::MIN, 0]
    );
}

#[test]
fn encoder_buffer_and_retry_policy() {
    assert_eq!(mp3_buffer_size(0), 7200);
    assert_eq!(mp3_buffer_size(1152), 10656);
    assert_eq!(after_encode(vec![1, 2, 3, 4], EncodeResult::Encoded(2)), EncodeStep::Write(vec![1, 2]));
    assert_eq!(after_encode(vec![1, 2, 3], EncodeResult::Encoded(3)), EncodeStep::Write(vec![1, 2, 3]));
    assert_eq!(after_encode(vec![1, 2, 3], EncodeResult::Encoded(0)), EncodeStep::Write(vec![]));
    assert_eq!(after_encode(vec![0; 100], EncodeResult::Encoded(101)), EncodeStep::Abort);
    assert_eq!(after_encode(vec![0; 100], EncodeResult::OutputBufferTooSmall), EncodeStep::Retry(200));
    assert_eq!(after_encode(vec![], EncodeResult::OutputBufferTooSmall), EncodeStep::Retry(0));
    assert_eq!(after_encode(vec![0; 100], EncodeResult::Failed), EncodeStep::Abort);
}

/// Runs a stand-in encoder that needs `needed` bytes of output, the way the
/// server runs LAME; returns the sizes offered and the bytes to write.
fn run_encoder(samples: usize, needed: usize) -> (Vec<usize>, Option<Vec<u8>>) {
    let mut offered = Vec::new();
    let mut size = mp3_buffer_size(samples);
    loop {
        offered.push(size);
        let mut buf = vec![0u8; size];
        let result = if size < needed {
            EncodeResult::OutputBufferTooSmall
        } else {
            for (i, b) in buf[..needed].iter_mut().enumerate() {
                *b = i as u8;
            }
            EncodeResult::Encoded(needed)
        };
        match after_encode(buf, result) {
            EncodeStep::Write(bytes) => return (offered, Some(bytes)),
            EncodeStep::Retry(larger) => size = larger,
            EncodeStep::Abort => return (offered, None),
        }
    }
}

#[test]
fn encoding_doubles_the_buffer_until_it_fits() {
    let (offered, bytes) = run_encoder(1000, 30_000);
    assert_eq!(offered, vec![10_200, 20_400, 40_800]);
    assert_eq!(bytes, Some((0..30_000).map(|i| i as u8).collect::<Vec<u8>>()));
}
