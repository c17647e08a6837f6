use rusty_chromaprint::fft::FrameBuffer;
use rusty_chromaprint::fingerprinter::Configuration;
use rusty_chromaprint::utils::samples_from_le_bytes;

fn frames_of(stream: &[i32], chunk: usize, frame_size: usize, overlap: usize) -> Vec<Vec<i32>> {
    let mut buffer = FrameBuffer::new(frame_size, overlap);
    let mut frames = vec![];
    for piece in stream.chunks(chunk) {
        buffer.extend(piece);
        while let Some(frame) = buffer.frame() {
            frames.push(frame.to_vec());
            buffer.advance();
        }
    }
    frames
}

#[test]
fn frames_overlap() {
    let stream: Vec<i32> = (0..11).collect();
    assert_eq!(
        frames_of(&stream, 100, 4, 1),
        vec![vec![0, 1, 2, 3], vec![3, 4, 5, 6], vec![6, 7, 8, 9]]
    );
    assert_eq!(
        frames_of(&stream, 100, 5, 0),
        vec![vec![0, 1, 2, 3, 4], vec![5, 6, 7, 8, 9]]
    );
    assert_eq!(frames_of(&stream[..3], 100, 4, 1), Vec::<Vec<i32>>::new());
    assert_eq!(frames_of(&stream[..2], 100, 2, 1), vec![vec![0, 1]]);
}

#[test]
fn frames_do_not_depend_on_chunks() {
    let stream: Vec<i32> = (0..1000).map(|i| i * 7 % 13).collect();
    let whole = frames_of(&stream, 1000, 32, 8);
    assert_eq!(whole.len(), 41);
    for (k, frame) in whole.iter().enumerate() {
        assert_eq!(frame[..], stream[k * 24..k * 24 + 32]);
    }
    for chunk in [1, 7, 24, 32, 100, 999] {
        assert_eq!(frames_of(&stream, chunk, 32, 8), whole);
    }
}

#[test]
fn frame_buffer_counts_and_resets() {
    let mut buffer: FrameBuffer<i16> = FrameBuffer::new(4, 2);
    assert_eq!((buffer.frame_size(), buffer.frame_overlap()), (4, 2));
    assert_eq!(buffer.frame(), None);
    buffer.extend(&[1, 2, 3]);
    assert_eq!(buffer.len(), 3);
    assert_eq!(buffer.frame(), None);
    buffer.extend(&[4, 5]);
    assert_eq!(buffer.frame(), Some(&[1i16, 2, 3, 4][..]));
    buffer.advance();
    assert_eq!(buffer.len(), 3);
    assert_eq!(buffer.frame(), None);
    buffer.reset();
    assert_eq!(buffer.len(), 0);
    buffer.extend(&[9, 8, 7, 6]);
    assert_eq!(buffer.frame(), Some(&[9i16, 8, 7, 6][..]));
}

#[test]
fn samples_are_read_low_byte_first() {
    assert_eq!(samples_from_le_bytes(&[]), Vec::<i16>::new());
    assert_eq!(samples_from_le_bytes(&[1]), Vec::<i16>::new());
    assert_eq!(
        samples_from_le_bytes(&[1, 0, 0, 1, 0xff, 0x7f, 0, 0x80, 0xff, 0xff, 5]),
        vec![1, 256, 32767, -32768, -1]
    );
}

#[test]
fn presets_by_number() {
    for id in 0..=4u8 {
        assert_eq!(Configuration::preset(id).unwrap().id(), id);
    }
    assert!(Configuration::preset(5).is_none());
    assert!(Configuration::preset(255).is_none());
    assert!(Configuration::preset(2).unwrap().interpolate());
}
