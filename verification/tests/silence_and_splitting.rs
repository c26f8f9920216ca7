use radio_replay::audio_store::{AudioId, AudioMetadata, ChunkAction, MessageAction, MessageSplitter, SAMPLES_PER_CHUNK};
use radio_replay::silence_gate::{SilenceGate, SILENCE_SAMPLE_WINDOW};

const LOUD: i32 = 2_000_000; // power 4e12

#[test]
fn new_gate_is_closed() {
    let gate = SilenceGate::new();
    assert!(!gate.is_open());
}

#[test]
fn loud_samples_open_the_gate() {
    let mut gate = SilenceGate::new();
    gate.add_sound(&vec![LOUD; 100]);
    assert!(gate.is_open());
}

#[test]
fn a_full_window_of_silence_closes_the_gate() {
    let mut gate = SilenceGate::new();
    gate.add_sound(&vec![LOUD; 100]);
    gate.add_sound(&vec![0; SILENCE_SAMPLE_WINDOW - 1]);
    // one loud sample is still in the window: 4e12 / 8000 = 5e8, below the threshold
    assert!(!gate.is_open());
    gate.add_sound(&[0]);
    assert!(!gate.is_open());
}

#[test]
fn mean_exactly_at_threshold_is_closed() {
    let mut gate = SilenceGate::new();
    gate.add_sound(&vec![1_000_000; SILENCE_SAMPLE_WINDOW]);
    assert!(!gate.is_open());
    gate.add_sound(&[1_000_001]);
    assert!(gate.is_open());
}

#[test]
fn single_sample_window() {
    let mut gate = SilenceGate::new();
    gate.add_sound(&[1_000_000]);
    assert!(!gate.is_open());
    let mut gate = SilenceGate::new();
    gate.add_sound(&[-1_000_001]);
    assert!(gate.is_open());
}

#[test]
fn extreme_samples_do_not_overflow() {
    let mut gate = SilenceGate::new();
    gate.add_sound(&vec![i32::MIN; SILENCE_SAMPLE_WINDOW + 10]);
    assert!(gate.is_open());
    gate.add_sound(&vec![i32::MAX; 10]);
    assert!(gate.is_open());
}

#[test]
fn half_loud_window_stays_open() {
    let mut gate = SilenceGate::new();
    gate.add_sound(&vec![LOUD; 4000]);
    gate.add_sound(&vec![0; 4000]);
    // mean 2e12
    assert!(gate.is_open());
    gate.add_sound(&vec![0; 2000]);
    // 2000 loud of 8000: mean 1e12, not above
    assert!(!gate.is_open());
}

#[test]
fn splitter_starts_appends_and_finishes_a_message() {
    let mut splitter = MessageSplitter::new();
    let mut data = vec![LOUD; 20_000];
    data.extend(vec![0; 5_000]);
    let actions = splitter.split(&data);
    assert_eq!(
        actions,
        vec![
            ChunkAction { start: 0, end: 10_000, action: MessageAction::Start },
            ChunkAction { start: 10_000, end: 20_000, action: MessageAction::Append },
            // 3000 loud samples of 8000 remain: mean 1.5e12
            ChunkAction { start: 20_000, end: 25_000, action: MessageAction::Append },
        ]
    );
    let actions = splitter.split(&vec![0; SAMPLES_PER_CHUNK]);
    assert_eq!(actions, vec![ChunkAction { start: 0, end: 10_000, action: MessageAction::Finish }]);
    let actions = splitter.split(&[0, 0, 0]);
    assert_eq!(actions, vec![ChunkAction { start: 0, end: 3, action: MessageAction::Silent }]);
}

#[test]
fn splitter_on_empty_data_decides_nothing() {
    let mut splitter = MessageSplitter::new();
    assert_eq!(splitter.split(&[]), vec![]);
    // a message opened before stays open across empty input
    let _ = splitter.split(&vec![LOUD; 10]);
    assert_eq!(splitter.split(&[]), vec![]);
    assert_eq!(splitter.on_chunk(&[LOUD]), MessageAction::Append);
}

#[test]
fn splitter_chunk_by_chunk() {
    let mut splitter = MessageSplitter::new();
    assert_eq!(splitter.on_chunk(&[0; 10]), MessageAction::Silent);
    assert_eq!(splitter.on_chunk(&[LOUD; 10]), MessageAction::Start);
    assert_eq!(splitter.on_chunk(&[LOUD; 10]), MessageAction::Append);
    assert_eq!(splitter.on_chunk(&vec![0; SILENCE_SAMPLE_WINDOW]), MessageAction::Finish);
    assert_eq!(splitter.on_chunk(&[0; 10]), MessageAction::Silent);
}

#[test]
fn splitter_cuts_exact_multiples() {
    let mut splitter = MessageSplitter::new();
    let actions = splitter.split(&vec![0; 2 * SAMPLES_PER_CHUNK]);
    assert_eq!(actions.len(), 2);
    assert_eq!(actions[1].start, SAMPLES_PER_CHUNK);
    assert_eq!(actions[1].end, 2 * SAMPLES_PER_CHUNK);
    let actions = splitter.split(&vec![0; 2 * SAMPLES_PER_CHUNK + 1]);
    assert_eq!(actions.len(), 3);
    assert_eq!(actions[2].start, 2 * SAMPLES_PER_CHUNK);
    assert_eq!(actions[2].end, 2 * SAMPLES_PER_CHUNK + 1);
}

#[test]
fn metadata_keeps_its_fields() {
    let m = AudioMetadata::new(1591558692000, String::from("nyc-cw1"), AudioId(7));
    assert_eq!(m.timestamp(), 1591558692000);
    assert_eq!(m.channel(), "nyc-cw1");
    assert_eq!(m.id(), AudioId(7));
    assert_eq!(m.id().value(), 7);
}

/// The messages (as sample runs) that the actions of a splitter cut out of
/// consecutive batches: every chunk but a silent one is written, a message
/// opening at `Start` and closing at `Finish`.
fn messages_of(splitter: &mut MessageSplitter, batches: &[Vec<i32>]) -> (Vec<Vec<i32>>, Option<Vec<i32>>) {
    let mut done = Vec::new();
    let mut open: Option<Vec<i32>> = None;
    for batch in batches {
        for c in splitter.split(batch) {
            let chunk = &batch[c.start..c.end];
            match c.action {
                MessageAction::Start => open = Some(chunk.to_vec()),
                MessageAction::Append => open.as_mut().unwrap().extend_from_slice(chunk),
                MessageAction::Finish => {
                    let mut m = open.take().unwrap();
                    m.extend_from_slice(chunk);
                    done.push(m);
                }
                MessageAction::Silent => {}
            }
        }
    }
    (done, open)
}

#[test]
fn a_message_holds_its_opening_chunk_through_its_closing_chunk() {
    let mut splitter = MessageSplitter::new();
    let batches = vec![vec![LOUD, LOUD], vec![0; 8]];
    let (done, open) = messages_of(&mut splitter, &batches);
    assert_eq!(done, vec![vec![LOUD, LOUD, 0, 0, 0, 0, 0, 0, 0, 0]]);
    assert_eq!(open, None);
}

#[test]
fn silence_before_a_message_is_not_written() {
    let mut splitter = MessageSplitter::new();
    let batches = vec![vec![0; 5], vec![LOUD; 3], vec![LOUD], vec![0; SILENCE_SAMPLE_WINDOW], vec![0; 4]];
    let (done, open) = messages_of(&mut splitter, &batches);
    let mut expected = vec![LOUD; 4];
    expected.extend(vec![0; SILENCE_SAMPLE_WINDOW]);
    assert_eq!(done, vec![expected]);
    assert_eq!(open, None);
}

#[test]
fn splitting_whole_chunks_then_the_rest_decides_as_splitting_at_once() {
    let mut a = vec![LOUD; 15_000];
    a.extend(vec![0; 5_000]);
    let mut b = vec![0; 12_000];
    b.extend(vec![LOUD; 300]);
    let mut ab = a.clone();
    ab.extend(b.clone());

    let mut once = MessageSplitter::new();
    let at_once = once.split(&ab);

    let mut twice = MessageSplitter::new();
    let mut in_two = twice.split(&a);
    for c in twice.split(&b) {
        in_two.push(ChunkAction { start: c.start + a.len(), end: c.end + a.len(), action: c.action });
    }
    assert_eq!(at_once, in_two);
    assert_eq!(once.on_chunk(&[0]), twice.on_chunk(&[0]));
}
