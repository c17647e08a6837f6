use rusty_chromaprint::audio_processor::{AudioProcessor, MAX_BUFFER_SIZE};
use rusty_chromaprint::stages::{AudioConsumer, Stage};
use rusty_chromaprint::ResetError;

/// Keeps what it is given, and the sizes of the pieces.
struct AudioBuffer {
    data: Vec<i16>,
    pieces: Vec<usize>,
    resets: usize,
    flushes: usize,
}

impl AudioBuffer {
    fn new() -> Self {
        Self { data: Vec::new(), pieces: Vec::new(), resets: 0, flushes: 0 }
    }
}

impl Stage for AudioBuffer {
    type Output = [i16];

    fn output(&self) -> &Self::Output {
        self.data.as_slice()
    }
}

impl AudioConsumer<i16> for AudioBuffer {
    fn reset(&mut self) {
        self.data.clear();
        self.pieces.clear();
        self.resets += 1;
    }

    fn consume(&mut self, data: &[i16]) {
        self.data.extend_from_slice(data);
        self.pieces.push(data.len());
    }

    fn flush(&mut self) {
        self.flushes += 1;
    }
}

fn signal(len: usize) -> Vec<i16> {
    (0..len).map(|i| ((i * 7919) % 65536) as u16 as i16).collect()
}

#[test]
fn audio_processor_pass_through() {
    let data = signal(100_000);
    let mut processor = AudioProcessor::new(44100, AudioBuffer::new());
    processor.reset(44100, 1).unwrap();
    processor.consume(&data);
    processor.flush();
    assert_eq!(processor.output(), &data[..]);
    assert!(!processor.needs_resampling());
}

#[test]
fn audio_processor_stereo_to_mono() {
    let data1 = signal(100_000);
    let data2: Vec<i16> = data1.iter().flat_map(|x| [*x, *x]).collect();

    let mut processor = AudioProcessor::new(44100, AudioBuffer::new());
    processor.reset(44100, 2).unwrap();
    processor.consume(&data2);
    processor.flush();
    assert_eq!(processor.output(), &data1[..]);
}

#[test]
fn audio_processor_mixes_towards_zero() {
    let mut processor = AudioProcessor::new(11025, AudioBuffer::new());
    processor.reset(11025, 2).unwrap();
    processor.consume(&[1, 2, -1, -2, 32767, 32767, -32768, -32768, -3, 0, 3, 0, 32767, -32768]);
    processor.flush();
    assert_eq!(processor.output(), &[1, -1, 32767, -32768, -1, 1, 0]);

    let mut processor = AudioProcessor::new(11025, AudioBuffer::new());
    processor.reset(11025, 3).unwrap();
    processor.consume(&[1, 1, 2, -1, -1, -2, 32767, 32767, 32767, -32768, -32768, -32768, 5, -7, 0]);
    processor.flush();
    assert_eq!(processor.output(), &[1, -1, 32767, -32768, 0]);
}

#[test]
fn audio_processor_does_not_depend_on_chunks() {
    let data = signal(3 * MAX_BUFFER_SIZE * 2 + 1000);
    let mut whole = AudioProcessor::new(11025, AudioBuffer::new());
    whole.reset(22050, 2).unwrap();
    whole.consume(&data);
    whole.flush();

    let expected: Vec<i16> = data
        .chunks_exact(2)
        .map(|f| ((f[0] as i32 + f[1] as i32) / 2) as i16)
        .collect();
    assert_eq!(whole.output(), &expected[..]);

    for chunk in [2usize, 6, 1000, 65536, 65538] {
        let mut pieces = AudioProcessor::new(11025, AudioBuffer::new());
        pieces.reset(22050, 2).unwrap();
        for piece in data.chunks(chunk) {
            pieces.consume(piece);
        }
        pieces.flush();
        assert_eq!(pieces.output(), whole.output());
        // full slabs, then the rest
        assert_eq!(
            pieces.consumer().pieces,
            vec![MAX_BUFFER_SIZE, MAX_BUFFER_SIZE, MAX_BUFFER_SIZE, 500]
        );
        assert_eq!(pieces.consumer().flushes, 1);
    }
}

#[test]
fn audio_processor_hands_on_full_slabs_only() {
    let mut processor = AudioProcessor::new(11025, AudioBuffer::new());
    processor.reset(11025, 1).unwrap();
    processor.consume(&signal(MAX_BUFFER_SIZE - 1));
    assert_eq!(processor.output().len(), 0);
    processor.consume(&[5]);
    assert_eq!(processor.output().len(), MAX_BUFFER_SIZE);
    processor.consume(&[]);
    processor.flush();
    assert_eq!(processor.consumer().pieces, vec![MAX_BUFFER_SIZE]);
    processor.consume(&[1, 2, 3]);
    processor.flush();
    assert_eq!(processor.consumer().pieces, vec![MAX_BUFFER_SIZE, 3]);
}

#[test]
fn audio_processor_reset_checks_the_stream() {
    let mut processor = AudioProcessor::new(11025, AudioBuffer::new());
    assert_eq!(processor.reset(44100, 0), Err(ResetError::NoChannels));
    assert_eq!(processor.reset(1000, 0), Err(ResetError::NoChannels));
    assert_eq!(processor.reset(1000, 2), Err(ResetError::SampleRateTooLow));
    assert_eq!(processor.reset(0, 1), Err(ResetError::SampleRateTooLow));
    assert_eq!(processor.consumer().resets, 0);
    assert_eq!(processor.reset(1001, 1), Ok(()));
    assert!(processor.needs_resampling());
    assert_eq!(processor.reset(11025, 2), Ok(()));
    assert!(!processor.needs_resampling());
    assert_eq!(processor.consumer().resets, 2);

    processor.consume(&[1, 3, 5, 7]);
    assert_eq!(processor.reset(44100, 1), Ok(()));
    assert!(processor.needs_resampling());
    processor.consume(&[9]);
    processor.flush();
    assert_eq!(processor.output(), &[9]);
    assert_eq!(processor.channel_count(), 1);
    assert_eq!(processor.target_rate(), 11025);
    processor.consumer_mut().flushes = 7;
    assert_eq!(processor.consumer().flushes, 7);
}
