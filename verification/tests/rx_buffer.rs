use std::iter::FromIterator;
use vpn_relay::codec::{write_prefix, RxBuffer};

enum TxMode {
    Full,
    Chunked(usize),
}

impl TxMode {
    fn split(&self, v: Vec<u8>) -> Vec<Vec<u8>> {
        match self {
            Self::Full => vec![v],
            Self::Chunked(s) => v[..].chunks(*s).map(|c| c.to_vec()).collect(),
        }
    }
}

#[test]
fn rx_buffer() {
    println!("rx_buffer");

    for tx in vec![TxMode::Full, TxMode::Chunked(1), TxMode::Chunked(2)] {
        for sz in vec![1usize, 2, 3, 5, 7, 12, 64] {
            let src = (0..=255u8)
                .into_iter()
                .map(|e| Vec::from_iter(std::iter::repeat(e).take(sz)))
                .collect::<Vec<_>>();

            let mut buf = RxBuffer::default();
            let mut dst = Vec::with_capacity(src.len());

            src.iter().cloned().for_each(|mut v| {
                write_prefix(&mut v);
                for received in tx.split(v) {
                    for item in buf.process(received) {
                        dst.push(item);
                    }
                }
            });

            assert_eq!(src, dst);
        }
    }
}

#[test]
fn round_trip_across_frame_boundaries() {
    // Frames of every length 0..=70, concatenated, then split at arbitrary
    // chunk boundaries that do not respect frame boundaries at all.
    let src: Vec<Vec<u8>> = (0..=70usize)
        .map(|len| (0..len).map(|b| (b % 251) as u8).collect::<Vec<u8>>())
        .collect();

    let mut stream: Vec<u8> = Vec::new();
    for f in src.iter() {
        let mut framed = f.clone();
        write_prefix(&mut framed);
        stream.extend_from_slice(&framed);
    }

    let mut sizes: Vec<usize> = vec![1, 2, 3, 5, 7, 12, 64];
    sizes.push(stream.len());
    for chunk_size in sizes {
        let mut buf = RxBuffer::default();
        let mut dst: Vec<Vec<u8>> = Vec::new();
        for chunk in stream.chunks(chunk_size) {
            for item in buf.process(chunk.to_vec()) {
                dst.push(item);
            }
        }
        assert_eq!(src, dst);
    }
}

#[test]
fn zero_length_frame_keeps_sync() {
    let mut buf = RxBuffer::default();
    // A zero-length frame followed by a one-byte frame, fed byte by byte.
    let stream: Vec<u8> = vec![0, 0, 1, 0, 42];
    let mut dst: Vec<Vec<u8>> = Vec::new();
    for b in stream {
        for item in buf.process(vec![b]) {
            dst.push(item);
        }
    }
    assert_eq!(dst, vec![Vec::<u8>::new(), vec![42u8]]);
}

#[test]
fn prefix_is_two_bytes_low_first() {
    let mut v: Vec<u8> = vec![9, 8, 7];
    write_prefix(&mut v);
    assert_eq!(v, vec![3, 0, 9, 8, 7]);

    let mut big: Vec<u8> = vec![0; 300];
    write_prefix(&mut big);
    assert_eq!(big[0], 44); // 300 == 1 * 256 + 44
    assert_eq!(big[1], 1);
    assert_eq!(big.len(), 302);
}
