use zygote_core::protocol::{describe_chunks, DescribeBuffer, PER_CHUNK};

#[test]
fn describe_chunks_cover_all_params() {
    // The example graph exposes ten parameters.
    let params: Vec<u32> = (0..10).collect();
    let chunks = describe_chunks(params.len());
    let mut total = 0;
    for c in &chunks {
        assert!(c.end - c.start <= PER_CHUNK);
        total += c.end - c.start;
    }
    assert_eq!(total, params.len());
}

#[test]
fn describe_chunks_are_numbered_and_contiguous() {
    let chunks = describe_chunks(130);
    let got: Vec<(u16, u16, usize, usize)> = chunks.iter().map(|c| (c.chunk, c.chunks, c.start, c.end)).collect();
    assert_eq!(got, vec![(0, 3, 0, 64), (1, 3, 64, 128), (2, 3, 128, 130)]);
    let exact: Vec<(u16, u16, usize, usize)> =
        describe_chunks(128).iter().map(|c| (c.chunk, c.chunks, c.start, c.end)).collect();
    assert_eq!(exact, vec![(0, 2, 0, 64), (1, 2, 64, 128)]);
}

#[test]
fn empty_description_is_one_empty_chunk() {
    let got: Vec<(u16, u16, usize, usize)> =
        describe_chunks(0).iter().map(|c| (c.chunk, c.chunks, c.start, c.end)).collect();
    assert_eq!(got, vec![(0, 1, 0, 0)]);
}

#[test]
fn buffer_reassembles_chunks() {
    let params: Vec<u32> = (0..150).collect();
    let mut buffer: DescribeBuffer<u32> = DescribeBuffer::new();
    // A stale partial description is dropped when chunk 0 arrives.
    assert!(buffer.receive(1, 5, vec![999]).is_none());
    let chunks = describe_chunks(params.len());
    let mut done = None;
    for c in &chunks {
        let part = params[c.start..c.end].to_vec();
        let got = buffer.receive(c.chunk, c.chunks, part);
        if c.chunk + 1 == c.chunks {
            done = got;
        } else {
            assert!(got.is_none());
        }
    }
    assert_eq!(done, Some(params));
    // The buffer is empty again afterwards.
    assert_eq!(buffer.receive(0, 1, vec![7]), Some(vec![7]));
}

#[test]
fn describe_moves_every_item_into_numbered_parts() {
    let items: Vec<u32> = (0..130).collect();
    let parts = zygote_core::protocol::describe(items);
    assert_eq!(parts.len(), 3);
    assert_eq!((parts[0].0, parts[0].1, parts[0].2.len()), (0, 3, 64));
    assert_eq!((parts[1].0, parts[1].1, parts[1].2.len()), (1, 3, 64));
    assert_eq!((parts[2].0, parts[2].1, parts[2].2.clone()), (2, 3, vec![128, 129]));
    let joined: Vec<u32> = parts.into_iter().flat_map(|p| p.2).collect();
    assert_eq!(joined, (0..130).collect::<Vec<u32>>());
    let empty = zygote_core::protocol::describe(Vec::<u32>::new());
    assert_eq!(empty.len(), 1);
    assert_eq!((empty[0].0, empty[0].1, empty[0].2.len()), (0, 1, 0));
}
