use range_split::encoder::FileSplitEncoder;

/// Drives a whole input through repeated partial writes, mirroring the
/// returned effects into in-memory segments the way a caller mirrors them
/// into files: returns the closed segments as (name, bytes) pairs in the
/// order they were produced, and the still-open segment, if any.
fn drive(
    enc: &mut FileSplitEncoder,
    data: &[u8],
) -> (Vec<(Vec<u8>, Vec<u8>)>, Option<(Vec<u8>, Vec<u8>)>) {
    let mut closed: Vec<(Vec<u8>, Vec<u8>)> = Vec::new();
    let mut open: Option<(Vec<u8>, Vec<u8>)> = None;
    let mut offset = 0usize;
    let mut first_seen = false;
    while offset < data.len() {
        let eff = enc.write(&data[offset..]);
        if eff.first_call {
            assert!(!first_seen, "the first call must happen exactly once");
            first_seen = true;
        }
        if let Some(name) = eff.opened {
            assert!(open.is_none(), "at most one output resource is open");
            open = Some((name, Vec::new()));
        }
        let seg = open.as_mut().expect("writing requires an open resource");
        seg.1.extend_from_slice(&data[offset..offset + eff.accepted]);
        offset += eff.accepted;
        if eff.closed {
            closed.push(open.take().unwrap());
        } else {
            assert!(eff.accepted > 0, "an open segment accepts at least one byte");
        }
    }
    (closed, open)
}

#[test]
fn fidelity_round_trip() {
    // Concatenating all segments in label order restores the input; every
    // closed segment's size lies in the configured range; the final
    // segment may fall short of the lower bound.
    let data: Vec<u8> = (0..=255u8).collect();
    let mut enc = FileSplitEncoder::new(b"out/".to_vec(), (5, 10), 2);
    let (closed, open) = drive(&mut enc, &data);

    let mut restored: Vec<u8> = Vec::new();
    for (_, bytes) in &closed {
        assert!(bytes.len() >= 5 && bytes.len() < 10);
        restored.extend_from_slice(bytes);
    }
    if let Some((_, bytes)) = &open {
        assert!(bytes.len() < 10);
        restored.extend_from_slice(bytes);
    }
    assert_eq!(restored, data);
}

#[test]
fn partial_write_protocol_exact() {
    // With the degenerate range [4, 5) every drawn capacity is 4, so the
    // boundaries are exact: a large write is accepted only up to the
    // remaining capacity and the caller resubmits the rest.
    let data = *b"abcdefghij";
    let mut enc = FileSplitEncoder::new(Vec::new(), (4, 5), 2);

    let eff = enc.write(&data);
    assert!(eff.first_call);
    assert_eq!(eff.opened.as_deref(), Some(b"aa".as_slice()));
    assert_eq!(eff.accepted, 4);
    assert!(eff.closed);

    let eff = enc.write(&data[4..]);
    assert!(!eff.first_call);
    assert_eq!(eff.opened.as_deref(), Some(b"ab".as_slice()));
    assert_eq!(eff.accepted, 4);
    assert!(eff.closed);

    let eff = enc.write(&data[8..]);
    assert!(!eff.first_call);
    assert_eq!(eff.opened.as_deref(), Some(b"ac".as_slice()));
    assert_eq!(eff.accepted, 2);
    assert!(!eff.closed);
}

#[test]
fn determinism_from_first_byte() {
    // Two streams sharing the same first byte and the same configured
    // range draw identical capacity sequences, whatever follows the
    // first byte.
    let mut a: Vec<u8> = vec![42];
    let mut b: Vec<u8> = vec![42];
    a.extend((0..200).map(|i| (i % 251) as u8));
    b.extend((0..200).map(|i| (i * 7 % 13) as u8));

    let mut enc_a = FileSplitEncoder::new(Vec::new(), (3, 9), 4);
    let mut enc_b = FileSplitEncoder::new(Vec::new(), (3, 9), 4);
    let (closed_a, open_a) = drive(&mut enc_a, &a);
    let (closed_b, open_b) = drive(&mut enc_b, &b);

    let sizes_a: Vec<usize> = closed_a.iter().map(|(_, d)| d.len()).collect();
    let sizes_b: Vec<usize> = closed_b.iter().map(|(_, d)| d.len()).collect();
    assert_eq!(sizes_a, sizes_b);
    assert_eq!(
        open_a.map(|(_, d)| d.len()),
        open_b.map(|(_, d)| d.len())
    );
}

#[test]
fn different_first_bytes_may_differ() {
    // A wrapper handing back something independent of the seed would pass
    // the determinism test trivially; sanity-check that the seed reaches
    // the generator by finding two first bytes with different draws.
    let mut any_difference = false;
    for seed in 0..=255u8 {
        let mut data = vec![seed];
        data.extend(std::iter::repeat(0u8).take(50));
        let mut enc = FileSplitEncoder::new(Vec::new(), (1, 50), 2);
        let (closed, _) = drive(&mut enc, &data);
        let mut reference = vec![0u8];
        reference.extend(std::iter::repeat(0u8).take(50));
        let mut ref_enc = FileSplitEncoder::new(Vec::new(), (1, 50), 2);
        let (ref_closed, _) = drive(&mut ref_enc, &reference);
        let sizes: Vec<usize> = closed.iter().map(|(_, d)| d.len()).collect();
        let ref_sizes: Vec<usize> = ref_closed.iter().map(|(_, d)| d.len()).collect();
        if sizes != ref_sizes {
            any_difference = true;
            break;
        }
    }
    assert!(any_difference, "segment sizes never depended on the seed");
}

#[test]
fn labels_have_no_gaps_or_repeats() {
    // One byte per segment: thirty segments walk the label sequence
    // a..z, za, zb, zc, zd with no gap and no repeat, growing past the
    // single-character alphabet exactly once.
    let data = [7u8; 30];
    let mut enc = FileSplitEncoder::new(b"seg-".to_vec(), (1, 2), 1);
    let (closed, open) = drive(&mut enc, &data);
    assert!(open.is_none());
    assert_eq!(closed.len(), 30);

    let mut expected: Vec<Vec<u8>> = (b'a'..=b'z').map(|c| vec![c]).collect();
    expected.push(b"za".to_vec());
    expected.push(b"zb".to_vec());
    expected.push(b"zc".to_vec());
    expected.push(b"zd".to_vec());
    for (i, (name, bytes)) in closed.iter().enumerate() {
        let mut want = b"seg-".to_vec();
        want.extend_from_slice(&expected[i]);
        assert_eq!(name, &want);
        assert_eq!(bytes.len(), 1);
    }
}

#[test]
fn write_all_accepts_everything() {
    let data: Vec<u8> = (0..100u8).collect();
    let mut enc = FileSplitEncoder::new(Vec::new(), (7, 11), 3);
    let effs = enc.write_all(&data);
    let total: usize = effs.iter().map(|e| e.accepted).sum();
    assert_eq!(total, data.len());
    assert!(effs[0].first_call);
    assert_eq!(effs[0].opened.as_deref(), Some(b"aaa".as_slice()));
}
