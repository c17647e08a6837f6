use rusty_chromaprint::chunks::{ChunkPlanner, FrameRange, Pieces, Step};

fn take(first_part: usize, chunk_done: Option<usize>, rest: Option<(usize, usize)>, stream_done: bool) -> Step {
    Step::Take(Pieces {
        first_part,
        chunk_done,
        rest: rest.map(|(begin, end)| FrameRange { begin, end }),
        stream_done,
    })
}

#[test]
fn stream_without_limits_takes_everything() {
    let mut planner = ChunkPlanner::new(0, 0, 0);
    assert_eq!(planner.next(1000), take(1000, None, None, false));
    assert_eq!(planner.next(0), Step::Skip);
    assert_eq!(planner.next(24), take(24, None, None, false));
    assert_eq!((planner.stream_size, planner.chunk_size), (1024, 1024));
    assert_eq!(planner.last_chunk(), Some(1024));
    assert!(planner.first_chunk);
}

#[test]
fn stream_ends_at_its_limit() {
    let mut planner = ChunkPlanner::new(2500, 0, 0);
    assert_eq!(planner.next(1000), take(1000, None, None, false));
    assert_eq!(planner.next(1000), take(1000, None, None, false));
    assert_eq!(planner.next(1000), take(500, None, None, true));
    assert_eq!(planner.next(1000), Step::Stop);
    let mut exact = ChunkPlanner::new(1000, 0, 0);
    assert_eq!(exact.next(1000), take(1000, None, None, false));
    assert_eq!(exact.next(0), Step::Skip);
    assert_eq!(exact.next(1), Step::Stop);
    assert_eq!(exact.last_chunk(), Some(1000));
}

#[test]
fn chunks_are_cut_and_the_first_is_longer() {
    let mut planner = ChunkPlanner::new(0, 1000, 300);
    assert_eq!(planner.next(800), take(800, None, None, false));
    // the first chunk takes 1300 frames
    assert!(planner.is_plannable(1100));
    assert_eq!(planner.next(1100), take(500, Some(1000), Some((500, 600)), false));
    assert!(!planner.first_chunk);
    assert_eq!((planner.chunk_size, planner.extra_chunk_limit), (600, 0));
    assert_eq!(planner.next(300), take(300, None, None, false));
    assert_eq!(planner.last_chunk(), Some(900));
    assert!(planner.is_plannable(200));
    assert_eq!(planner.next(200), take(100, Some(1000), Some((100, 100)), false));
    assert_eq!(planner.chunk_size, 100);
    assert_eq!(planner.last_chunk(), Some(100));
    assert_eq!(planner.stream_size, 2400);
}

#[test]
fn buffers_that_cannot_be_planned() {
    // behind the first part fewer frames are left than the part has
    let planner = ChunkPlanner::new(0, 1000, 0);
    assert!(planner.is_plannable(1000));
    assert!(planner.is_plannable(2000));
    assert!(!planner.is_plannable(1999));
    assert!(!planner.is_plannable(1001));
    // the chunk has gone beyond its limit
    let mut planner = ChunkPlanner::new(0, 10, 0);
    assert_eq!(planner.next(25), take(10, Some(10), Some((10, 15)), false));
    assert_eq!(planner.chunk_size, 15);
    assert!(!planner.is_plannable(1));
    assert!(planner.is_plannable(0));
    // counts that do not fit
    let planner = ChunkPlanner { stream_size: usize::MAX - 5, ..ChunkPlanner::new(0, 0, 0) };
    assert!(planner.is_plannable(5));
    assert!(!planner.is_plannable(6));
    let empty = ChunkPlanner::new(5, 0, 0);
    assert_eq!(empty.last_chunk(), None);
}
