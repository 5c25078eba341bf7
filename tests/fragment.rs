use flesh::fragment::{split_message, InternalFrame, MessagePart, Reassembler};

fn payload(n: usize) -> Vec<u8> {
    (0..n).map(|i| (i * 7 + 3) as u8).collect()
}

fn parts(frames: Vec<InternalFrame>) -> Vec<MessagePart> {
    frames
        .into_iter()
        .map(|f| match f {
            InternalFrame::Split(p) => p,
            InternalFrame::Complete(_) => panic!("not split"),
        })
        .collect()
}

#[test]
fn small_payload_is_complete() {
    let frames = split_message(&payload(1200), 1200, 9).unwrap();
    assert_eq!(frames.len(), 1);
    assert!(matches!(&frames[0], InternalFrame::Complete(d) if d == &payload(1200)));
}

#[test]
fn fragmentation_round_trip_out_of_order() {
    let data = payload(4000);
    let ps = parts(split_message(&data, 1200, 77).unwrap());
    assert_eq!(ps.len(), 4);
    for (i, p) in ps.iter().enumerate() {
        assert_eq!(p.part as usize, i);
        assert_eq!(p.total_parts, 4);
        assert_eq!(p.id, 77);
    }
    assert_eq!(ps[0].data.len(), 1100);
    assert_eq!(ps[3].data.len(), 700);
    let mut slots: Vec<Option<MessagePart>> = ps.into_iter().map(Some).collect();
    let mut r = Reassembler::new();
    let mut out = Vec::new();
    for i in [2usize, 0, 3, 1] {
        out.push(r.receive_part(slots[i].take().unwrap(), 10));
    }
    assert!(out[0].is_none() && out[1].is_none() && out[2].is_none());
    assert_eq!(out[3].as_ref().unwrap(), &data);
    assert!(r.is_empty());
}

#[test]
fn withheld_fragment_emits_nothing() {
    let data = payload(3000);
    let ps = parts(split_message(&data, 600, 5).unwrap());
    let n = ps.len();
    assert_eq!(n, 6);
    let mut r = Reassembler::new();
    for p in ps.into_iter().filter(|p| p.part != 3) {
        assert!(r.receive_part(p, 1).is_none());
    }
    assert!(r.contains(5));
    assert!(n > 0);
}

#[test]
fn duplicates_are_idempotent() {
    let data = payload(250);
    let ps = parts(split_message(&data, 200, 5).unwrap());
    assert_eq!(ps.len(), 3);
    let mut r = Reassembler::new();
    let dup = MessagePart { id: 5, part: 0, total_parts: 3, data: vec![0xff; 100] };
    assert!(r.receive_part(MessagePart { id: 5, part: 0, total_parts: 3, data: ps[0].data.clone() }, 1).is_none());
    assert!(r.receive_part(dup, 1).is_none());
    assert!(r.receive_part(MessagePart { id: 5, part: 2, total_parts: 3, data: ps[2].data.clone() }, 1).is_none());
    let done = r.receive_part(MessagePart { id: 5, part: 1, total_parts: 3, data: ps[1].data.clone() }, 1);
    assert_eq!(done.unwrap(), data);
}

#[test]
fn invalid_parts_are_ignored() {
    let mut r = Reassembler::new();
    assert!(r.receive_part(MessagePart { id: 1, part: 3, total_parts: 3, data: vec![] }, 1).is_none());
    assert!(r.receive_part(MessagePart { id: 1, part: 0, total_parts: 0, data: vec![] }, 1).is_none());
    assert!(r.is_empty());
    assert!(r.receive_part(MessagePart { id: 1, part: 0, total_parts: 2, data: vec![1] }, 1).is_none());
    assert!(r.receive_part(MessagePart { id: 1, part: 1, total_parts: 5, data: vec![2] }, 1).is_none());
    assert_eq!(r.receive_part(MessagePart { id: 1, part: 1, total_parts: 2, data: vec![2] }, 1), Some(vec![1, 2]));
}

#[test]
fn single_fragment_completes_at_once() {
    let mut r = Reassembler::new();
    assert_eq!(r.receive_part(MessagePart { id: 1, part: 0, total_parts: 1, data: vec![4] }, 1), Some(vec![4]));
    assert!(r.is_empty());
}

#[test]
fn stale_reassembly_is_evicted() {
    let mut r = Reassembler::new();
    assert!(r.receive_part(MessagePart { id: 8, part: 0, total_parts: 3, data: vec![1] }, 0).is_none());
    r.collect_garbage(299);
    assert!(r.contains(8));
    r.collect_garbage(301);
    assert!(!r.contains(8));
    assert!(r.receive_part(MessagePart { id: 8, part: 1, total_parts: 3, data: vec![2] }, 302).is_none());
    assert!(r.contains(8));
    assert!(r.receive_part(MessagePart { id: 8, part: 2, total_parts: 3, data: vec![3] }, 303).is_none());
}

#[test]
fn frame_encoding_round_trip() {
    let f = InternalFrame::Split(MessagePart { id: 0x0102, part: 1, total_parts: 4, data: vec![9, 8] });
    let bytes = f.encode();
    assert_eq!(bytes.len(), 1 + 16 + 2 + 2 + 2);
    assert_eq!(bytes[0], 1);
    assert_eq!(&bytes[1..3], &[0x02, 0x01]);
    match InternalFrame::decode(&bytes).unwrap() {
        InternalFrame::Split(p) => {
            assert_eq!((p.id, p.part, p.total_parts), (0x0102, 1, 4));
            assert_eq!(p.data, vec![9, 8]);
        },
        _ => panic!(),
    }
    let c = InternalFrame::Complete(vec![5]).encode();
    assert_eq!(c, vec![0, 5]);
    assert!(InternalFrame::decode(&[]).is_none());
    assert!(InternalFrame::decode(&[1, 2, 3]).is_none());
    assert!(InternalFrame::decode(&[7]).is_none());
}

#[test]
fn too_many_fragments_is_refused() {
    let data = vec![0u8; 65536 + 1];
    assert!(split_message(&data, 101, 1).is_none());
}
