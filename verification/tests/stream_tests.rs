use docker_query::opts::EventsOpts;
use docker_query::stream::{EventStream, StreamState};

#[test]
fn open_path_without_query() {
    let opts = EventsOpts::builder().build();
    let (stream, path) = EventStream::open(&opts);
    assert_eq!(path, "/events");
    assert!(stream.is_streaming());
}

#[test]
fn open_path_with_query() {
    let mut b = EventsOpts::builder();
    b.since(3);
    let opts = b.build();
    let (_stream, path) = EventStream::open(&opts);
    assert_eq!(path, "/events?since=3");
}

#[test]
fn three_frames_then_drop() {
    let opts = EventsOpts::builder().build();
    let (mut stream, _path) = EventStream::open(&opts);
    let mut frames: Vec<Vec<u8>> = Vec::new();
    frames.extend(stream.on_data(&b"{\"a\":1}\n{\"b\":2}\n".to_vec()));
    frames.extend(stream.on_data(&b"{\"c\":3}\n".to_vec()));
    stream.on_disconnect();
    assert_eq!(frames.len(), 3);
    assert_eq!(frames[0], b"{\"a\":1}");
    assert_eq!(frames[1], b"{\"b\":2}");
    assert_eq!(frames[2], b"{\"c\":3}");
    assert_eq!(stream.state, StreamState::ClosedOnError);
    assert!(!stream.is_streaming());
}

#[test]
fn frames_split_across_chunks() {
    let opts = EventsOpts::builder().build();
    let (mut stream, _path) = EventStream::open(&opts);
    let mut frames: Vec<Vec<u8>> = Vec::new();
    frames.extend(stream.on_data(&b"ab".to_vec()));
    assert!(frames.is_empty());
    frames.extend(stream.on_data(&b"c\nde".to_vec()));
    frames.extend(stream.on_data(&b"f\n".to_vec()));
    assert_eq!(frames.len(), 2);
    assert_eq!(frames[0], b"abc");
    assert_eq!(frames[1], b"def");
}

#[test]
fn empty_frames_are_delivered() {
    let opts = EventsOpts::builder().build();
    let (mut stream, _path) = EventStream::open(&opts);
    let frames = stream.on_data(&b"\n\n".to_vec());
    assert_eq!(frames.len(), 2);
    assert!(frames[0].is_empty());
    assert!(frames[1].is_empty());
}

#[test]
fn abandon_closes_normally() {
    let opts = EventsOpts::builder().build();
    let (mut stream, _path) = EventStream::open(&opts);
    stream.abandon();
    assert_eq!(stream.state, StreamState::ClosedNormally);
    assert!(!stream.is_streaming());
}
