use ogg_demux::crc::Crc;
use ogg_demux::demux::Demux;

/// Build a page from its lacing table and payload, with a valid checksum.
fn make_page_v(cont: bool, version: u8, seqno: u32, lacing: &[u8], payload: &[u8]) -> Vec<u8> {
    let mut p: Vec<u8> = vec![0x4f, 0x67, 0x67, 0x53, version, if cont { 1 } else { 0 }];
    p.extend_from_slice(&[0u8; 12]); // granule position and stream serial
    p.extend_from_slice(&seqno.to_le_bytes());
    p.extend_from_slice(&[0u8; 4]); // checksum, patched below
    p.push(lacing.len() as u8);
    p.extend_from_slice(lacing);
    p.extend_from_slice(payload);
    let engine = Crc::new();
    let crc = engine.checksum(&p);
    p[22..26].copy_from_slice(&crc.to_le_bytes());
    p
}

fn make_page(cont: bool, seqno: u32, lacing: &[u8], payload: &[u8]) -> Vec<u8> {
    make_page_v(cont, 0, seqno, lacing, payload)
}

/// Lacing table and concatenated payload for whole packets in one page.
fn lace_packets(packets: &[&[u8]]) -> (Vec<u8>, Vec<u8>) {
    let mut lacing: Vec<u8> = Vec::new();
    let mut payload: Vec<u8> = Vec::new();
    for p in packets {
        let mut n = p.len();
        while n >= 255 {
            lacing.push(255);
            n -= 255;
        }
        lacing.push(n as u8);
        payload.extend_from_slice(p);
    }
    (lacing, payload)
}

fn page_of_packets(seqno: u32, packets: &[&[u8]]) -> Vec<u8> {
    let (lacing, payload) = lace_packets(packets);
    make_page(false, seqno, &lacing, &payload)
}

/// Feed `bytes` in chunks of `chunk` bytes, draining packets as they come.
fn pump(d: &mut Demux, bytes: &[u8], chunk: usize) -> Vec<Vec<u8>> {
    let mut out: Vec<Vec<u8>> = Vec::new();
    let mut pos = 0;
    let mut stall = 0;
    while pos < bytes.len() {
        let end = if pos + chunk < bytes.len() { pos + chunk } else { bytes.len() };
        let n = d.write(&bytes[pos..end]);
        pos += n;
        while let Some(p) = d.next_packet() {
            out.push(p);
        }
        if n == 0 {
            stall += 1;
            assert!(stall < 10000, "demultiplexer stopped accepting bytes");
        } else {
            stall = 0;
        }
    }
    while let Some(p) = d.next_packet() {
        out.push(p);
    }
    out
}

fn varied(len: usize) -> Vec<u8> {
    // consecutive bytes always differ, so the capture pattern (with its
    // repeated byte) can never appear by accident
    (0..len).map(|i| (i % 251) as u8).collect()
}

#[test]
fn no_page_no_packet() {
    let mut d = Demux::new(4096, 4096);
    assert_eq!(d.next_packet(), None);
}

#[test]
fn round_trip_one_write() {
    let big = varied(300);
    let stream = page_of_packets(0, &[b"hello world", &big, b"", b"tail"]);
    let mut d = Demux::new(4096, 4096);
    let out = pump(&mut d, &stream, stream.len());
    assert_eq!(out.len(), 4);
    assert_eq!(out[0], b"hello world");
    assert_eq!(out[1], big);
    assert_eq!(out[2], b"");
    assert_eq!(out[3], b"tail");
}

#[test]
fn round_trip_byte_by_byte() {
    let big = varied(300);
    let mut stream = page_of_packets(0, &[b"hello world", &big, b"", b"tail"]);
    stream.extend_from_slice(&page_of_packets(1, &[b"second page"]));
    let mut d = Demux::new(4096, 4096);
    let out = pump(&mut d, &stream, 1);
    assert_eq!(out.len(), 5);
    assert_eq!(out[0], b"hello world");
    assert_eq!(out[1], big);
    assert_eq!(out[2], b"");
    assert_eq!(out[3], b"tail");
    assert_eq!(out[4], b"second page");
}

#[test]
fn packet_spanning_pages() {
    let packet = varied(600);
    // 600 = 255 + 255 + 90: the first two segments fill page one, whose
    // final lacing value of 255 announces a continuation
    let mut stream = make_page(false, 7, &[255, 255], &packet[..510]);
    let mut payload2: Vec<u8> = packet[510..].to_vec();
    payload2.extend_from_slice(b"next!");
    stream.extend_from_slice(&make_page(true, 8, &[90, 5], &payload2));
    let mut d = Demux::new(4096, 4096);
    let out = pump(&mut d, &stream, stream.len());
    assert_eq!(out.len(), 2);
    assert_eq!(out[0], packet);
    assert_eq!(out[1], b"next!");
}

#[test]
fn corruption_is_isolated_to_one_page() {
    let p1 = page_of_packets(0, &[b"one"]);
    let p2 = page_of_packets(1, &[b"two"]);
    let p3 = page_of_packets(2, &[b"three"]);
    let mut stream = p1.clone();
    stream.extend_from_slice(&p2);
    stream.extend_from_slice(&p3);
    // flip one bit inside page two's payload, invalidating its checksum
    stream[p1.len() + 28] ^= 0x80;
    let mut d = Demux::new(4096, 4096);
    let out = pump(&mut d, &stream, stream.len());
    assert_eq!(out.len(), 2);
    assert_eq!(out[0], b"one");
    assert_eq!(out[1], b"three");
}

#[test]
fn oversized_packet_is_dropped() {
    let big = varied(100);
    let stream = page_of_packets(0, &[&big, b"ok"]);
    let mut d = Demux::new(4096, 64);
    let out = pump(&mut d, &stream, stream.len());
    assert_eq!(out.len(), 1);
    assert_eq!(out[0], b"ok");
}

#[test]
fn oversized_packet_spanning_segments_is_dropped() {
    let big = varied(600);
    let stream = page_of_packets(0, &[&big, b"x"]);
    let mut d = Demux::new(4096, 300);
    let out = pump(&mut d, &stream, stream.len());
    assert_eq!(out.len(), 1);
    assert_eq!(out[0], b"x");
}

#[test]
fn junk_prefix_is_resynchronized_away() {
    let mut stream: Vec<u8> = Vec::new();
    for _ in 0..20 {
        stream.extend_from_slice(&[1, 2, 3]);
    }
    stream.extend_from_slice(b"Ogg"); // a partial pattern inside the junk
    stream.extend_from_slice(&[9, 9]);
    stream.extend_from_slice(&page_of_packets(0, &[b"found"]));
    stream.extend_from_slice(&page_of_packets(1, &[b"kept"]));
    let mut d = Demux::new(4096, 4096);
    let out = pump(&mut d, &stream, stream.len());
    assert_eq!(out.len(), 2);
    assert_eq!(out[0], b"found");
    assert_eq!(out[1], b"kept");
}

#[test]
fn full_input_buffer_evicts_oldest_page() {
    let p1 = page_of_packets(0, &[b"aaaa"]);
    let p2 = page_of_packets(1, &[b"bbbb"]);
    let p3 = page_of_packets(2, &[b"cccc"]);
    assert_eq!(p1.len(), p2.len());
    assert_eq!(p1.len(), p3.len());
    // room for exactly two pages; the third write must evict the first
    let mut d = Demux::new(p1.len() + p2.len(), 4096);
    assert_eq!(d.write(&p1), p1.len());
    assert_eq!(d.write(&p2), p2.len());
    assert_eq!(d.buffered(), p1.len() + p2.len());
    assert_eq!(d.write(&p3), p3.len());
    let mut out: Vec<Vec<u8>> = Vec::new();
    while let Some(p) = d.next_packet() {
        out.push(p);
    }
    assert_eq!(out.len(), 2);
    assert_eq!(out[0], b"bbbb");
    assert_eq!(out[1], b"cccc");
}

#[test]
fn capture_pattern_split_across_writes() {
    let page = page_of_packets(0, &[b"split"]);
    let mut first: Vec<u8> = vec![b'z', b'z'];
    first.extend_from_slice(&page[..2]);
    assert_eq!(&page[..2], b"Og");
    let mut d = Demux::new(4096, 4096);
    assert_eq!(d.write(&first), 4);
    // the junk is gone; only the partial capture pattern is kept
    assert_eq!(d.buffered(), 2);
    assert_eq!(d.next_packet(), None);
    assert_eq!(d.write(&page[2..]), page.len() - 2);
    assert_eq!(d.next_packet(), Some(b"split".to_vec()));
    assert_eq!(d.next_packet(), None);
}

#[test]
fn incomplete_page_defers_until_completed() {
    let page = page_of_packets(0, &[b"patience"]);
    let mut d = Demux::new(4096, 4096);
    assert_eq!(d.write(&page[..20]), 20);
    assert_eq!(d.next_packet(), None);
    assert_eq!(d.write(&page[20..]), page.len() - 20);
    assert_eq!(d.next_packet(), Some(b"patience".to_vec()));
}

#[test]
fn unsupported_version_is_skipped_as_noise() {
    let bad = make_page_v(false, 1, 0, &[4], b"nope");
    let good = page_of_packets(1, &[b"good"]);
    let mut stream = bad;
    stream.extend_from_slice(&good);
    let mut d = Demux::new(4096, 4096);
    let out = pump(&mut d, &stream, stream.len());
    assert_eq!(out.len(), 1);
    assert_eq!(out[0], b"good");
}

#[test]
fn abandoned_continuation_is_silently_dropped() {
    // page one ends mid-packet; page two does not continue it
    let partial = varied(255);
    let mut stream = make_page(false, 0, &[255], &partial);
    stream.extend_from_slice(&page_of_packets(1, &[b"fresh"]));
    let mut d = Demux::new(4096, 4096);
    let out = pump(&mut d, &stream, stream.len());
    assert_eq!(out.len(), 1);
    assert_eq!(out[0], b"fresh");
}

#[test]
fn broken_continuation_chain_drops_the_packet() {
    let partial = varied(255);
    let mut stream = make_page(false, 0, &[255], &partial);
    // the continuation page carries the wrong sequence number, so the
    // in-flight packet is judged corrupt; its terminating segment and the
    // packet after it belong to page two
    let mut payload2: Vec<u8> = varied(40);
    payload2.extend_from_slice(b"after");
    stream.extend_from_slice(&make_page(true, 5, &[40, 5], &payload2));
    let mut d = Demux::new(4096, 4096);
    let out = pump(&mut d, &stream, stream.len());
    assert_eq!(out.len(), 1);
    assert_eq!(out[0], b"after");
}
