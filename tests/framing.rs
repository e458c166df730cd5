use socketboard::framing::{encode_frame, FrameReader};

#[test]
fn frame_has_big_endian_length() {
    assert_eq!(encode_frame(&vec![1, 2, 3]), vec![0, 0, 0, 3, 1, 2, 3]);
    assert_eq!(encode_frame(&vec![]), vec![0, 0, 0, 0]);
    let big = vec![7u8; 300];
    let f = encode_frame(&big);
    assert_eq!(&f[..4], &[0, 0, 1, 44]);
    assert_eq!(f.len(), 304);
}

#[test]
fn frames_survive_any_chunking() {
    let messages: Vec<Vec<u8>> = vec![
        b"{\"type\":\"handshake\",\"name\":\"alice\"}".to_vec(),
        vec![],
        b"}{ inside }{".to_vec(),
        vec![9u8; 70000],
    ];
    let mut stream = Vec::new();
    for m in &messages {
        stream.extend(encode_frame(m));
    }
    for size in [1usize, 2, 3, 5, 7, 64, 1000, stream.len()] {
        let mut reader = FrameReader::new();
        let mut out = Vec::new();
        for chunk in stream.chunks(size) {
            out.extend(reader.push(chunk));
        }
        assert_eq!(out, messages, "chunk size {}", size);
    }
}

#[test]
fn partial_frame_waits_for_the_rest() {
    let mut reader = FrameReader::new();
    assert_eq!(reader.push(&[0, 0]), Vec::<Vec<u8>>::new());
    assert_eq!(reader.push(&[0, 2, 5]), Vec::<Vec<u8>>::new());
    assert_eq!(reader.push(&[6, 0, 0, 0, 1]), vec![vec![5, 6]]);
    assert_eq!(reader.push(&[8]), vec![vec![8]]);
    assert_eq!(reader.push(&[]), Vec::<Vec<u8>>::new());
}
