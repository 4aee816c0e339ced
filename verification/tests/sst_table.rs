//! Tables written and read back, with the blocks held in memory.

use ondadb::comparator::{default_comparator, Bytewise, Reverse};
use ondadb::encoding::{checksum, put_u32_at, read_u32, read_u32_at};
use ondadb::error::OndaError;
use ondadb::format::{CAP_EXTENDED_RECORDS, CAP_PREFIX_DELTA, KIND_DELETE, KIND_MERGE, KIND_PUT};
use ondadb::place::compare_places;
use ondadb::range_tombstone::Fragment;
use ondadb::sst_aux::{decode_aux_sections, decode_aux_sections_for_test, encode_aux_sections, AUX_SECTION_RANGE};
use ondadb::sst_block::{restart_scan_offset, scan_point_entry, split_block, PointHit, StoredValue};
use ondadb::sst_entry::{decode_delta_header, decode_entry, decode_entry_delta};
use ondadb::sst_format::{
    append_vlog_payload, check_vlog_header, decode_footer, decode_vlog_frame, encode_footer, encode_vlog_frame,
    encode_vlog_header, stored_codec, verify_vlog_frame, vlog_path_for, vlog_stored_len, BlockHandle, TableFooter, FOOTER_SIZE,
};
use ondadb::sst_index::{decode_index, encode_index, shortest_separator, IndexEntry};
use ondadb::sst_iter::SstIterator;
use ondadb::sst_open::{OpenStep, TableOpen};
use ondadb::sst_reader::{caches_value, Reader, VerifiedFrames};
use ondadb::sst_tree::{TreeLoad, TreeWrite};
use ondadb::sst_writer::{compression_for_key, CompressionRule, Writer, WriterOptions};

fn opts(restart_interval: usize, prefix_delta: bool, block_size: usize) -> WriterOptions {
    WriterOptions {
        compression: 0,
        compression_rules: Vec::new(),
        klog_value_threshold: 1 << 20,
        block_size,
        use_btree: false,
        restart_interval,
        extended_entries: false,
        prefix_delta,
    }
}

struct Row {
    key: Vec<u8>,
    value: Vec<u8>,
    seq: u64,
    ttl: i64,
    kind: u64,
}

fn put(key: &str, value: &[u8], seq: u64) -> Row {
    Row {
        key: key.as_bytes().to_vec(),
        value: value.to_vec(),
        seq,
        ttl: 0,
        kind: KIND_PUT,
    }
}

struct Table {
    blocks: Vec<Vec<u8>>,
    reader: Reader<Bytewise>,
}

fn flush(w: &mut Writer<Bytewise>, blocks: &mut Vec<Vec<u8>>) {
    if let Some((bytes, _)) = w.take_block() {
        w.block_written(bytes.len() as u64 + 9);
        blocks.push(bytes);
    }
}

/// Write the rows, then open what was written.
fn table(o: WriterOptions, rows: &[Row]) -> Table {
    let mut w = Writer::new(o, default_comparator()).unwrap();
    let mut blocks = Vec::new();
    for r in rows {
        let codec = w.codec_for(&r.key);
        if w.must_cut(codec) {
            flush(&mut w, &mut blocks);
        }
        w.add(&r.key, &r.value, r.seq, r.ttl, r.kind, codec, None).unwrap();
        if w.is_full() {
            flush(&mut w, &mut blocks);
        }
    }
    flush(&mut w, &mut blocks);
    w.finish_index();
    let (index, min_key) = w.index();
    let bytes = encode_index(min_key.unwrap(), index);
    let handle = w.meta_written(bytes.len() as u64);
    let footer = encode_footer(&w.footer(handle, None, None));
    assert_eq!(footer.len(), FOOTER_SIZE);
    let file_len = handle.offset + handle.length + footer.len() as u64;
    let footer = decode_footer(&footer, file_len).unwrap();
    let (min_key, index) = decode_index(&bytes).unwrap();
    let reader = Reader::open("t.klog", 1, default_comparator(), &footer, min_key, index, None).unwrap();
    assert_eq!(reader.data_block_count(), blocks.len());
    assert_eq!(reader.num_entries(), rows.len() as u64);
    Table { blocks, reader }
}

impl Table {
    fn get(&self, key: &[u8], now: i64) -> PointHit {
        self.get_at(key, u64::MAX, now)
    }

    fn get_at(&self, key: &[u8], seq: u64, now: i64) -> PointHit {
        let b = self.reader.find_block(key, seq);
        if b >= self.blocks.len() {
            return PointHit {
                value: None,
                seq: 0,
                found: false,
                deleted: false,
                kind: KIND_PUT,
            };
        }
        self.reader.point(&self.blocks[b], key, seq, now).unwrap()
    }

    fn drive(&self, it: &mut SstIterator<'_, Bytewise>, mut want: Option<usize>) {
        while let Some(b) = want {
            want = it.supply(Ok(self.blocks[b].clone()));
        }
    }

    fn first<'a>(&'a self) -> SstIterator<'a, Bytewise> {
        let mut it = SstIterator::new(&self.reader);
        let want = it.seek_to_first();
        self.drive(&mut it, want);
        it
    }

    fn last<'a>(&'a self) -> SstIterator<'a, Bytewise> {
        let mut it = SstIterator::new(&self.reader);
        let want = it.seek_to_last();
        self.drive(&mut it, want);
        it
    }

    fn next(&self, it: &mut SstIterator<'_, Bytewise>) {
        let want = it.next();
        self.drive(it, want);
    }

    fn prev(&self, it: &mut SstIterator<'_, Bytewise>) {
        let want = it.prev();
        self.drive(it, want);
    }
}

fn inline(h: &PointHit) -> Option<&[u8]> {
    match &h.value {
        Some(StoredValue::Inline(v)) => Some(v),
        _ => None,
    }
}

fn small(n: usize) -> Table {
    let rows: Vec<Row> = (0..n).map(|i| put(&format!("key{i:06}"), b"value", (i + 1) as u64)).collect();
    let mut o = opts(8, false, 512);
    o.klog_value_threshold = 512;
    table(o, &rows)
}

#[test]
fn restart_trailer_roundtrip() {
    let t = small(500);
    for i in 0..500 {
        let k = format!("key{i:06}");
        let h = t.get(k.as_bytes(), 0);
        assert!(h.found && !h.deleted, "missing {k}");
        assert_eq!(inline(&h).unwrap(), b"value");
    }
    for probe in ["key00000", "key0005000", "aaa", "zzz"] {
        let h = t.get(probe.as_bytes(), 0);
        assert!(!h.found, "phantom hit for {probe}");
    }
}

#[test]
fn vlog_payload_append_is_atomic_on_a_length_mismatch() {
    let mut out = b"prefix".to_vec();

    append_vlog_payload(b"value", 5, &mut out).unwrap();
    assert_eq!(out, b"prefixvalue");

    let before = out.clone();
    assert!(append_vlog_payload(b"short", 7, &mut out).is_err());
    assert_eq!(out, before, "a corrupt frame must not append partial data");
}

/// Change the capability word of a footer, and its checksum with it.
fn patched_footer(f: impl Fn(u64) -> u64) -> Result<u64, OndaError> {
    let mut w = Writer::new(opts(8, true, 512), default_comparator()).unwrap();
    w.add(b"k", b"v", 1, 0, KIND_PUT, 0, None).unwrap();
    let (b, _) = w.take_block().unwrap();
    w.block_written(b.len() as u64);
    let h = w.meta_written(64);
    let mut bytes = encode_footer(&w.footer(h, None, None));
    let caps = u64::from(read_u32_at(&bytes, 56));
    put_u32_at(&mut bytes, 56, f(caps) as u32);
    let crc = checksum(&bytes[..80]);
    put_u32_at(&mut bytes, 80, crc);
    let len = h.offset + h.length + bytes.len() as u64;
    decode_footer(&bytes, len).map(|f| f.caps)
}

#[test]
fn prefix_delta_without_extended_is_corruption() {
    assert_eq!(patched_footer(|c| c).unwrap(), CAP_EXTENDED_RECORDS | CAP_PREFIX_DELTA);
    let err = patched_footer(|c| c & !CAP_EXTENDED_RECORDS).expect_err("delta without extended must be refused");
    assert_eq!(err.kind(), "corruption", "{err:?}");
    let err = patched_footer(|c| c | 0x40).expect_err("an unknown capability must be refused");
    assert_eq!(err.kind(), "unsupported_format", "{err:?}");
    let err = patched_footer(|c| c | 0x01).expect_err("a capability of the database must be refused");
    assert_eq!(err.kind(), "corruption", "{err:?}");
}

#[test]
fn restart_lower_bound_matches_legacy_scan_offset() {
    let rows: Vec<Row> = (1..45u64).map(|i| put(&format!("k{i:02}"), b"value", i)).collect();
    let t = table(opts(4, false, 256), &rows);
    let ord = default_comparator();
    let c = t.reader.codec();
    let plain = |raw: &[u8], restarts: &[u8], key: &[u8], seq: u64| -> usize {
        if restarts.len() < 8 {
            return 0;
        }
        let restart_off = |i: usize| read_u32(&restarts[i * 4..i * 4 + 4]) as usize;
        let (mut lo, mut hi) = (0usize, restarts.len() / 4);
        while lo < hi {
            let mid = (lo + hi) / 2;
            let (entry, _) = decode_entry(raw, c.layout, restart_off(mid)).unwrap();
            if compare_places(&ord, entry.user_key(raw), entry.seq, key, seq).is_lt() {
                lo = mid + 1;
            } else {
                hi = mid;
            }
        }
        if lo > 0 {
            restart_off(lo - 1)
        } else {
            0
        }
    };
    let mut probes: Vec<String> = (1..45u64).map(|i| format!("k{i:02}")).collect();
    probes.extend(["a".into(), "k00".into(), "k99".into(), "zzz".into()]);
    let mut checked = 0;
    for (bi, block) in t.blocks.iter().enumerate() {
        let (raw, restarts) = split_block(block, false).unwrap();
        for probe in &probes {
            for seq in [0u64, 25, u64::MAX] {
                let want = plain(raw, restarts, probe.as_bytes(), seq);
                let got = restart_scan_offset(&ord, c, raw, restarts, probe.as_bytes(), seq).unwrap();
                assert_eq!(got, want, "block {bi}, probe {probe}, seq {seq}");
                checked += 1;
            }
        }
    }
    assert!(checked > 100, "the table must exercise the search");
}

#[test]
fn get_unfiltered_matches_manual_block_walk() {
    const NOW: i64 = 1_000_000;
    let mut rows = Vec::new();
    for i in 0..200u64 {
        let k = format!("key{i:04}");
        let mut r = put(&k, b"live", i + 1);
        match i % 4 {
            1 => {
                r.value = Vec::new();
                r.kind = KIND_DELETE;
            }
            2 => {
                r.value = b"expired".to_vec();
                r.ttl = NOW - 1;
            }
            _ => {}
        }
        rows.push(r);
    }
    let mut o = opts(4, false, 256);
    o.klog_value_threshold = 512;
    let t = table(o, &rows);
    let ord = default_comparator();
    let mut probes: Vec<String> = (0..200u64).map(|i| format!("key{i:04}")).collect();
    probes.extend(["aaa".into(), "key0000x".into(), "zzz".into()]);
    for (n, probe) in probes.iter().enumerate() {
        let probe = probe.as_bytes();
        let want = t.get(probe, NOW);
        let bi = t.reader.find_block(probe, u64::MAX);
        if bi >= t.reader.data_block_count() {
            assert!(!want.found);
            continue;
        }
        let (raw, restarts) = split_block(&t.blocks[bi], false).unwrap();
        let c = t.reader.codec();
        let off = restart_scan_offset(&ord, c, raw, restarts, probe, u64::MAX).unwrap();
        let got = scan_point_entry(&ord, c, raw, off, probe, u64::MAX, NOW).unwrap();
        assert_eq!(inline(&got), inline(&want));
        assert_eq!(
            (got.seq, got.found, got.deleted, got.kind),
            (want.seq, want.found, want.deleted, want.kind),
            "manual walk diverged for {}",
            String::from_utf8_lossy(probe)
        );
        if n < 200 {
            assert!(want.found);
            assert_eq!(want.deleted, n % 4 == 1 || n % 4 == 2);
            assert_eq!(want.seq, n as u64 + 1);
        } else {
            assert!(!want.found);
        }
    }
}

#[test]
fn a_value_is_compressed_where_that_makes_it_shorter() {
    assert_eq!(stored_codec(2, 100, 99), 2);
    assert_eq!(stored_codec(2, 100, 100), 0);
    assert_eq!(stored_codec(2, 100, 101), 0);
    assert_eq!(stored_codec(2, 0, 0), 0);
}

#[test]
fn vlog_stored_len_refuses_above_u32() {
    assert_eq!(vlog_stored_len(0).unwrap(), 0);
    assert_eq!(
        vlog_stored_len(u32::MAX as usize).unwrap(),
        u32::MAX,
        "a payload of exactly u32::MAX still fits the header field"
    );
    let e = vlog_stored_len(u32::MAX as usize + 1).expect_err("must refuse");
    assert_eq!(e.kind(), "too_large", "got {e:?}");
    assert!(
        e.to_string().contains("4294967295"),
        "the error should name the limit: {e:?}"
    );
}

#[test]
fn delta_writer_emits_zero_shared_at_every_restart() {
    let rows: Vec<Row> = (0..200u64)
        .map(|i| put(&format!("tenant/alpha/cluster/{i:04}"), b"v", i + 1))
        .collect();
    let t = table(opts(4, true, 512), &rows);
    assert!(t.reader.data_block_count() > 3, "several blocks");
    let mut anchors = 0usize;
    let mut shared_entries = 0usize;
    for block in &t.blocks {
        let (entries, restarts) = split_block(block, true).unwrap();
        for chunk in restarts.chunks_exact(4) {
            let off = read_u32(chunk) as usize;
            let (e, _) = decode_delta_header(entries, off).unwrap();
            assert_eq!(e.key_shared, 0, "restart anchor at {off} shares a prefix");
            anchors += 1;
        }
        let mut key = Vec::new();
        let mut off = 0usize;
        while off < entries.len() {
            let (e, next) = decode_entry_delta(entries, off, &mut key, true).unwrap();
            if e.key_shared > 0 {
                shared_entries += 1;
            }
            off = next;
        }
    }
    assert!(anchors >= 4, "expected several anchors, got {anchors}");
    assert!(
        shared_entries > 100,
        "prefix sharing did nothing: {shared_entries} entries shared"
    );
}

#[test]
fn writer_refuses_zero_restart_interval() {
    for delta in [false, true] {
        let err = Writer::new(opts(0, delta, 512), default_comparator())
            .err()
            .expect("a zero restart interval must be refused");
        assert_eq!(err.kind(), "invalid_args", "{err:?}");
        assert!(err.to_string().contains("restart_interval"), "{err:?}");
    }
}

#[test]
fn block_cut_accounts_for_the_restart_trailer() {
    for (name, delta) in [("plain", false), ("delta", true)] {
        let rows: Vec<Row> = (0..400u64)
            .map(|i| put(&format!("tenant/alpha/{i:04}"), b"payload-payload", i + 1))
            .collect();
        let t = table(opts(4, delta, 1024), &rows);
        let n = t.reader.data_block_count();
        assert!(n > 4, "{name}: several blocks");
        for bi in 0..n - 1 {
            let raw = &t.blocks[bi];
            assert!(
                raw.len() < 1024 + 64,
                "{name}: block {bi} is {} bytes, past its 1024-byte target plus one entry",
                raw.len()
            );
            let (entries, restarts) = split_block(raw, delta).unwrap();
            assert!(
                entries.len() + restarts.len() + 4 >= 1024,
                "{name}: block {bi} was cut early"
            );
        }
    }
}

#[test]
fn separator_properties() {
    assert_eq!(shortest_separator(b"abcXYZ", b"abd000"), b"abd".to_vec());
    assert_eq!(shortest_separator(b"abc", b"abcd"), b"abc".to_vec());
    assert_eq!(
        shortest_separator(&[0xff, 0xff], &[0xff, 0xff, 0x01]),
        vec![0xff, 0xff]
    );
    assert_eq!(shortest_separator(b"aa", b"ab0"), b"ab".to_vec());
    assert_eq!(shortest_separator(b"aa", b"ab"), b"aa".to_vec());

    let mut state = 0x9e3779b97f4a7c15u64;
    let mut rnd = move || {
        state ^= state << 13;
        state ^= state >> 7;
        state ^= state << 17;
        state
    };
    for _ in 0..10_000 {
        let la = (rnd() % 12 + 1) as usize;
        let lb = (rnd() % 12 + 1) as usize;
        let a: Vec<u8> = (0..la).map(|_| (rnd() % 6) as u8 + b'a').collect();
        let b: Vec<u8> = (0..lb).map(|_| (rnd() % 6) as u8 + b'a').collect();
        let (a, b) = if a < b {
            (a, b)
        } else if b < a {
            (b, a)
        } else {
            continue;
        };
        let s = shortest_separator(&a, &b);
        assert!(a.as_slice() <= s.as_slice(), "a={a:?} b={b:?} s={s:?}");
        assert!(s.as_slice() < b.as_slice(), "a={a:?} b={b:?} s={s:?}");
        assert!(s.len() <= a.len().max(1), "separator longer than a");
    }
}

#[test]
fn large_key_index_shrinks() {
    let n = 500usize;
    let val = vec![b'v'; 100];
    let mut rows = Vec::new();
    for i in 0..n {
        let mut k = format!("{i:016}").into_bytes();
        k.resize(2048, b'x');
        rows.push(Row {
            key: k,
            value: val.clone(),
            seq: (i + 1) as u64,
            ttl: 0,
            kind: KIND_PUT,
        });
    }
    let mut w = Writer::new(opts(8, false, 4 << 10), default_comparator()).unwrap();
    let mut blocks = Vec::new();
    for r in &rows {
        w.add(&r.key, &r.value, r.seq, 0, KIND_PUT, 0, None).unwrap();
        if w.is_full() {
            flush(&mut w, &mut blocks);
        }
    }
    flush(&mut w, &mut blocks);
    w.finish_index();
    let (index, _) = w.index();
    assert!(index.len() > 100, "expected many blocks with 2 KiB keys");
    let total_sep_bytes: usize = index.iter().map(|e| e.user_key.len()).sum();
    let full = index.len() * 2048;
    assert!(
        total_sep_bytes < full / 10,
        "index not shortened: {total_sep_bytes} of {full} bytes"
    );
    let t = table(opts(8, false, 4 << 10), &rows);
    assert_eq!(t.reader.max_key().len(), 2048);
}

#[test]
fn delta_run_arena_bound_is_respected() {
    let mut keys: Vec<Vec<u8>> = Vec::new();
    for i in 0..600u32 {
        let mut k = vec![b'p'; 1023];
        k.extend_from_slice(&i.to_be_bytes()[3..]);
        if i % 256 == 0 && i > 0 {
            continue;
        }
        keys.push(k);
    }
    keys.sort();
    keys.dedup();
    let rows: Vec<Row> = keys
        .iter()
        .enumerate()
        .map(|(i, k)| Row {
            key: k.clone(),
            value: b"v".to_vec(),
            seq: (i + 1) as u64,
            ttl: 0,
            kind: KIND_PUT,
        })
        .collect();
    let t = table(opts(1024, true, 4096), &rows);
    assert!(t.reader.is_prefix_delta());
    let mut it = t.last();
    let mut seen = 0usize;
    while it.valid() {
        seen += 1;
        t.prev(&mut it);
    }
    assert!(it.err().is_none());
    assert_eq!(seen, keys.len(), "reverse walk must see every entry");
    assert!(
        it.run_arena_overflows() > 0,
        "the arena bound never fired: keys are {} bytes each",
        keys[0].len()
    );
    let mut it = t.last();
    for want in keys.iter().rev() {
        assert!(it.valid());
        assert_eq!(it.user_key(), want.as_slice());
        t.prev(&mut it);
    }
    assert!(!it.valid());
}

#[test]
fn delta_child_serves_buffered_key() {
    let rows: Vec<Row> = (0..100u64)
        .map(|i| put(&format!("tenant/alpha/{i:04}"), b"value", i + 1))
        .collect();
    let plain = table(opts(4, false, 512), &rows);
    let it = plain.first();
    let (start, len) = it.key_block_ref().expect("a plain child pins its key");
    assert_eq!(len, it.user_key().len());
    assert!(start > 0);

    let delta = table(opts(4, true, 512), &rows);
    let mut it = delta.first();
    assert!(
        it.key_block_ref().is_none(),
        "a delta child must not hand out a borrow into the block"
    );
    assert_eq!(it.user_key(), b"tenant/alpha/0000");
    delta.next(&mut it);
    assert_eq!(it.user_key(), b"tenant/alpha/0001");
    assert!(it.key_block_ref().is_none());
}

#[test]
fn delta_child_still_pins_inline_value() {
    let rows: Vec<Row> = (0..64u64)
        .map(|i| put(&format!("tenant/alpha/{i:04}"), b"the-inline-value", i + 1))
        .collect();
    let t = table(opts(4, true, 512), &rows);
    let mut it = t.first();
    let mut n = 0;
    while it.valid() {
        let (start, len) = it
            .value_block_ref()
            .expect("an inline value stays pinned in a delta block");
        let b = t.reader.find_block(it.user_key(), it.seq());
        assert_eq!(&t.blocks[b][start..start + len], b"the-inline-value");
        n += 1;
        t.next(&mut it);
    }
    assert_eq!(n, 64);
}

/// Keys with several versions each.
fn versions() -> Vec<Row> {
    let mut rows = Vec::new();
    for i in 0..60u64 {
        for v in (0..3u64).rev() {
            rows.push(put(&format!("user/{:03}", i * 2), format!("v{v}").as_bytes(), 10 + v * 10));
        }
    }
    rows
}

#[test]
fn iterators_agree_with_a_sorted_list() {
    let rows = versions();
    let ord = default_comparator();
    for delta in [false, true] {
        for interval in [1usize, 3, 16] {
            let t = table(opts(interval, delta, 200), &rows);
            assert!(t.blocks.len() > 3);
            let mut it = t.first();
            for r in &rows {
                assert!(it.valid());
                assert_eq!((it.user_key(), it.seq()), (r.key.as_slice(), r.seq));
                assert_eq!(it.kind(), KIND_PUT);
                assert!(!it.is_tombstone() && !it.is_single_delete());
                let mut out = b"<".to_vec();
                assert!(it.value_into(&mut out).is_none());
                assert_eq!(&out[1..], r.value.as_slice());
                t.next(&mut it);
            }
            assert!(!it.valid() && it.err().is_none());
            let mut it = t.last();
            for r in rows.iter().rev() {
                assert!(it.valid());
                assert_eq!((it.user_key(), it.seq()), (r.key.as_slice(), r.seq));
                t.prev(&mut it);
            }
            assert!(!it.valid() && it.err().is_none());
            for i in 0..122u64 {
                for seq in [0u64, 10, 15, 20, 30, 31] {
                    let key = format!("user/{i:03}").into_bytes();
                    let before = |r: &&Row| compare_places(&ord, &r.key, r.seq, &key, seq).is_lt();
                    let n = rows.iter().filter(before).count();
                    let mut it = SstIterator::new(&t.reader);
                    let want = it.seek(&key, seq);
                    t.drive(&mut it, want);
                    assert_eq!(it.valid(), n < rows.len(), "seek {i} {seq}");
                    if n < rows.len() {
                        assert_eq!((it.user_key(), it.seq()), (rows[n].key.as_slice(), rows[n].seq));
                    }
                    let here = n < rows.len() && rows[n].key == key && rows[n].seq == seq;
                    let m = if here { n + 1 } else { n };
                    let mut it = SstIterator::new(&t.reader);
                    let want = it.seek_for_prev(&key, seq);
                    t.drive(&mut it, want);
                    assert_eq!(it.valid(), m > 0, "seek back {i} {seq}");
                    if m > 0 {
                        assert_eq!((it.user_key(), it.seq()), (rows[m - 1].key.as_slice(), rows[m - 1].seq));
                    }
                }
            }
        }
    }
}

#[test]
fn an_iterator_turns_around_anywhere() {
    let rows = versions();
    for delta in [false, true] {
        let t = table(opts(4, delta, 150), &rows);
        let mut it = t.first();
        let mut at = 0usize;
        let mut state = 7u64;
        for _ in 0..2000 {
            state ^= state << 13;
            state ^= state >> 7;
            state ^= state << 17;
            if state % 3 != 0 && at + 1 < rows.len() {
                t.next(&mut it);
                at += 1;
            } else if at > 0 {
                t.prev(&mut it);
                at -= 1;
            }
            assert!(it.valid());
            assert_eq!((it.user_key(), it.seq()), (rows[at].key.as_slice(), rows[at].seq));
        }
    }
}

#[test]
fn a_table_gives_back_the_newest_visible_version() {
    let rows = versions();
    for delta in [false, true] {
        let t = table(opts(4, delta, 200), &rows);
        for i in 0..122u64 {
            let key = format!("user/{i:03}");
            for seq in [0u64, 9, 10, 15, 20, 29, 30, 1000] {
                let want = rows
                    .iter()
                    .filter(|r| r.key == key.as_bytes() && r.seq <= seq)
                    .max_by_key(|r| r.seq);
                let got = t.get_at(key.as_bytes(), seq, 0);
                assert_eq!(got.found, want.is_some());
                if let Some(w) = want {
                    assert_eq!(got.seq, w.seq);
                    assert_eq!(inline(&got).unwrap(), w.value.as_slice());
                }
            }
        }
    }
}

#[test]
fn a_block_that_cannot_be_read_ends_the_walk() {
    let t = small(100);
    let mut it = SstIterator::new(&t.reader);
    assert_eq!(it.seek_to_first(), Some(0));
    assert_eq!(it.supply(Err(OndaError::NotFound)), None);
    assert!(!it.valid());
    assert_eq!(it.err().unwrap().kind(), "not_found");
    let mut it = SstIterator::new(&t.reader);
    it.seek_to_first();
    assert_eq!(it.supply(Ok(vec![1, 2])), None);
    assert_eq!(it.err().unwrap().kind(), "corruption");
    let mut it = SstIterator::new(&t.reader);
    it.seek_to_first();
    let mut cut = t.blocks[0].clone();
    cut[0] = 0xff;
    assert_eq!(it.supply(Ok(cut)), None);
    assert!(!it.valid() && it.err().is_some());
}

#[test]
fn a_damaged_run_is_reported_by_what_needs_it() {
    let rows: Vec<Row> = (0..9).map(|i| put(&format!("k{i:02}"), b"v", 1)).collect();
    let t = table(opts(3, true, 1 << 16), &rows);
    assert_eq!(t.blocks.len(), 1);
    let b = &t.blocks[0];
    let n = b.len();
    let count = u32::from_le_bytes(b[n - 4..].try_into().unwrap()) as usize;
    assert_eq!(count, 3);
    let anchors = n - 4 - 4 * count;
    let anchor = |i: usize| u32::from_le_bytes(b[anchors + 4 * i..anchors + 4 * i + 4].try_into().unwrap()) as usize;
    // The second entry of the middle run shares more than there is to share.
    let mut hurt = b.clone();
    let len = (anchor(2) - anchor(1)) / 3;
    let second = (anchor(1) + len - 2..anchor(2))
        .find(|&at| {
            let mut c = b.clone();
            c[at] = 0x7f;
            let mut it = SstIterator::new(&t.reader);
            it.seek(b"k05", 1);
            it.supply(Ok(c));
            it.err().is_some()
        })
        .unwrap();
    hurt[second] = 0x7f;
    let fresh = || SstIterator::new(&t.reader);

    // The runs around it can be read.
    let mut it = fresh();
    it.seek_to_last();
    it.supply(Ok(hurt.clone()));
    assert_eq!(it.user_key(), b"k08");
    it.prev();
    it.prev();
    assert_eq!(it.user_key(), b"k06");
    // Going back into the damaged run is refused.
    assert_eq!(it.prev(), None);
    assert!(!it.valid());
    assert_eq!(it.err().unwrap().kind(), "corruption");
    assert_eq!(it.prev(), None);

    let mut it = fresh();
    it.seek(b"k01", 1);
    it.supply(Ok(hurt.clone()));
    assert_eq!(it.user_key(), b"k01");
    // So is a search that goes through it.
    for key in [&b"k04"[..], b"k05", b"k055"] {
        let mut it = fresh();
        it.seek(key, 1);
        assert_eq!(it.supply(Ok(hurt.clone())), None);
        assert!(!it.valid());
        assert_eq!(it.err().unwrap().kind(), "corruption");
    }
    // One that looks back goes on to the last block, and stays refused.
    let mut it = fresh();
    it.seek_for_prev(b"k05", 1);
    assert_eq!(it.supply(Ok(hurt.clone())), Some(0));
    assert_eq!(it.supply(Ok(hurt.clone())), None);
    assert!(!it.valid() && it.err().is_some());
}

#[test]
fn going_back_starts_from_where_it_last_stood() {
    for delta in [false, true] {
        let rows: Vec<Row> = (0..9).map(|i| put(&format!("k{i:02}"), b"v", 1)).collect();
        let t = table(opts(3, delta, 32), &rows);
        assert!(t.blocks.len() > 1);
        let mut it = t.first();
        for _ in 0..5 {
            t.next(&mut it);
        }
        assert_eq!(it.user_key(), b"k05");
        assert_eq!(it.seek(b"z", 1), None);
        assert!(!it.valid() && it.err().is_none());
        t.prev(&mut it);
        assert_eq!(it.user_key(), b"k04");
        let mut it = t.first();
        t.prev(&mut it);
        assert!(!it.valid() && it.err().is_none());
        t.prev(&mut it);
        assert!(!it.valid() && it.err().is_none());
    }
}

#[test]
fn a_block_without_entries_is_stood_on_nowhere() {
    let t = table(opts(3, true, 32), &[put("a", b"1", 1), put("b", b"2", 1), put("c", b"3", 1), put("d", b"4", 1)]);
    assert!(t.blocks.len() > 1);
    let empty = vec![0u8; 4];
    let mut it = SstIterator::new(&t.reader);
    let b = it.seek(b"a", 1).unwrap();
    assert_eq!(b, 0);
    assert_eq!(it.supply(Ok(empty.clone())), None);
    assert!(!it.valid() && it.err().is_none());
    let mut it = SstIterator::new(&t.reader);
    let last = it.seek_to_last().unwrap();
    assert_eq!(it.supply(Ok(empty)), None);
    assert!(!it.valid() && it.err().is_none());
    assert_eq!(it.prev(), Some(last - 1));
    assert_eq!(it.supply(Ok(t.blocks[last - 1].clone())), None);
    assert!(it.valid());
}

#[test]
fn an_index_round_trips_flat_and_as_a_tree() {
    let entries: Vec<IndexEntry> = (0..1000u64)
        .map(|i| IndexEntry {
            user_key: format!("k{i:05}").into_bytes(),
            seq: i,
            handle: BlockHandle {
                offset: i * 100,
                length: 100,
            },
        })
        .collect();
    let bytes = encode_index(b"k", &entries);
    let (min, back) = decode_index(&bytes).unwrap();
    assert_eq!(min, b"k");
    assert_eq!(back.len(), entries.len());
    assert!(decode_index(&bytes[..bytes.len() - 1]).is_err());

    let mut nodes: Vec<Vec<u8>> = Vec::new();
    let mut w = TreeWrite::new(b"k".to_vec(), back);
    while w.root().is_none() {
        let node = w.node();
        w.wrote(BlockHandle {
            offset: nodes.len() as u64,
            length: node.len() as u64,
        });
        nodes.push(node);
    }
    assert!(nodes.len() >= 5);
    let mut load = TreeLoad::new(w.root().unwrap());
    while let Some(h) = load.wanted() {
        load.feed(&nodes[h.offset as usize]).unwrap();
    }
    let (min, got) = load.finish();
    assert_eq!(min, b"k");
    assert_eq!(got.len(), entries.len());
    for (a, b) in got.iter().zip(&entries) {
        assert_eq!(a.user_key, b.user_key);
        assert_eq!(a.seq, b.seq);
        assert_eq!(a.handle.offset, b.handle.offset);
    }
    let mut load = TreeLoad::new(w.root().unwrap());
    assert_eq!(load.feed(&[9, 9]).unwrap_err().kind(), "corruption");
}

#[test]
fn aux_sections_round_trip_and_are_held_to_their_order() {
    let sections = vec![(AUX_SECTION_RANGE, b"payload".to_vec())];
    let bytes = encode_aux_sections(&sections);
    let back = decode_aux_sections(&bytes).unwrap();
    assert_eq!(back, vec![(AUX_SECTION_RANGE, &b"payload"[..])]);
    assert_eq!(decode_aux_sections_for_test(&bytes).unwrap(), back);
    assert_eq!(decode_aux_sections(&bytes[..3]).unwrap_err().kind(), "corruption");
    let unknown = encode_aux_sections(&vec![(2u8, Vec::new())]);
    assert_eq!(decode_aux_sections(&unknown).unwrap_err().kind(), "unsupported_format");
}

#[test]
fn range_fragments_ride_in_the_aux_block() {
    let frag = |a: &str, b: &str, s: &[u64]| Fragment {
        start: a.as_bytes().to_vec(),
        end: b.as_bytes().to_vec(),
        seqs: s.to_vec(),
    };
    let mut o = opts(8, false, 512);
    let mut w = Writer::new(o, default_comparator()).unwrap();
    w.set_range_fragments(vec![frag("b", "d", &[9, 4])]);
    assert_eq!(w.aux_block().unwrap_err().kind(), "invalid_args");

    o = opts(8, false, 512);
    o.extended_entries = true;
    let mut w = Writer::new(o, default_comparator()).unwrap();
    w.set_range_fragments(vec![frag("b", "d", &[9, 4]), frag("d", "e", &[7])]);
    w.add(b"a", b"1", 3, 0, KIND_MERGE, 0, None).unwrap();
    let (block, _) = w.take_block().unwrap();
    w.block_written(block.len() as u64);
    w.finish_index();
    let aux = w.aux_block().unwrap().unwrap();
    let ah = w.meta_written(aux.len() as u64);
    let (index, min) = w.index();
    let ib = encode_index(min.unwrap(), index);
    let ih = w.meta_written(ib.len() as u64);
    let footer = encode_footer(&w.footer(ih, None, Some(ah)));
    let footer = decode_footer(&footer, ih.offset + ih.length + footer.len() as u64).unwrap();
    let meta = w.meta(footer.index.offset, 0);
    assert_eq!((meta.range_count, meta.range_min_seq, meta.range_max_seq), (2, 4, 9));
    assert_eq!(meta.range_min_key.as_deref(), Some(&b"b"[..]));
    assert_eq!(meta.range_max_key.as_deref(), Some(&b"e"[..]));
    let (min, index) = decode_index(&ib).unwrap();
    let r = Reader::open("x.klog", 4, default_comparator(), &footer, min, index, Some(&aux)).unwrap();
    assert_eq!(r.covering_seq(b"c", u64::MAX), Some(9));
    assert_eq!(r.covering_seq(b"c", 8), Some(4));
    assert_eq!(r.covering_seq(b"d", 6), None);
    assert_eq!(r.covering_seq(b"a", u64::MAX), None);
    assert_eq!(r.aux_block_handle(), (ah.offset, ah.length));
    assert_eq!(r.vlog_path(), "x.vlog");
    let bad = encode_aux_sections(&vec![(
        AUX_SECTION_RANGE,
        ondadb::range_tombstone::encode_fragments(&[frag("d", "e", &[7]), frag("b", "d", &[9])]),
    )]);
    let open = |aux: &[u8]| {
        let (min, index) = decode_index(&ib).unwrap();
        Reader::open("x.klog", 4, default_comparator(), &footer, min, index, Some(aux))
    };
    assert_eq!(open(&bad).err().unwrap().kind(), "corruption");
    let section = |fs: &[Fragment]| encode_aux_sections(&vec![(AUX_SECTION_RANGE, ondadb::range_tombstone::encode_fragments(fs))]);
    assert_eq!(
        open(&section(&[frag("a", "b", &[9]), frag("c", "c", &[7])])).err().unwrap().kind(),
        "corruption"
    );
    // A first fragment that holds no key deletes none.
    let r = open(&section(&[frag("x", "b", &[9]), frag("c", "d", &[7])])).unwrap();
    for key in [&b"a"[..], b"b", b"x", b"y"] {
        assert_eq!(r.covering_seq(key, u64::MAX), None);
    }
    assert_eq!(r.covering_seq(b"c", u64::MAX), Some(7));

    // Step by step: the auxiliary block, then the index.
    let mut load = TableOpen::new(footer, default_comparator());
    assert_eq!(load.wanted(), OpenStep::Aux(ah));
    assert_eq!(load.feed(&bad).unwrap_err().kind(), "corruption");
    assert_eq!(load.wanted(), OpenStep::Aux(ah));
    load.feed(&aux).unwrap();
    assert_eq!(load.wanted(), OpenStep::Index(ih));
    assert_eq!(load.feed(&[9]).unwrap_err().kind(), "corruption");
    load.feed(&ib).unwrap();
    assert_eq!(load.wanted(), OpenStep::Done);
    let r = load.finish("x.klog", 4);
    assert_eq!(r.covering_seq(b"c", u64::MAX), Some(9));
    assert_eq!(r.data_block_count(), 1);

    // A table with a filter and a tree, and nothing beside it.
    let at = |offset: u64| BlockHandle { offset, length: 8 };
    let f = TableFooter {
        index: at(100),
        bloom: Some(at(50)),
        btree: true,
        aux: BlockHandle { offset: 0, length: 0 },
        ..footer
    };
    let mut load = TableOpen::new(f, default_comparator());
    assert_eq!(load.wanted(), OpenStep::Bloom(at(50)));
    load.feed(b"anything").unwrap();
    assert_eq!(load.wanted(), OpenStep::Index(at(100)));
    assert!(load.feed(&[]).is_err());
}

#[test]
fn a_writer_refuses_kinds_it_has_no_place_for() {
    let mut w = Writer::new(opts(8, false, 512), default_comparator()).unwrap();
    let e = w.add(b"k", b"v", 1, 0, KIND_MERGE, 0, None).unwrap_err();
    assert_eq!(e.kind(), "invalid_args");
    let e = w.add(b"k", b"v", 1, 0, 40, 0, None).unwrap_err();
    assert_eq!(e.kind(), "unsupported_format");
    w.add(b"k", b"v", 1, 0, KIND_PUT, 0, None).unwrap();
    assert!(w.separates(KIND_PUT, 1 << 20));
    assert!(!w.separates(KIND_PUT, (1 << 20) - 1));
    assert!(!w.separates(KIND_DELETE, 1 << 20));
    assert!(!w.must_cut(0));
    assert!(w.must_cut(1));
}

#[test]
fn the_longest_compression_rule_wins() {
    let rule = |p: &str, codec: u8| CompressionRule {
        prefix: p.as_bytes().to_vec(),
        codec,
    };
    let rules = vec![rule("a", 1), rule("a/b", 2), rule("z", 3)];
    assert_eq!(compression_for_key(&rules, b"a/b/c"), Some(2));
    assert_eq!(compression_for_key(&rules, b"a/c"), Some(1));
    assert_eq!(compression_for_key(&rules, b"q"), None);
}

#[test]
fn values_in_the_log_are_framed_and_checked() {
    let head = encode_vlog_header();
    assert_eq!(head.len(), 32);
    assert_eq!(&head[..8], b"YOLODBVL");
    check_vlog_header(&head).unwrap();
    let mut bad = head.clone();
    bad[31] ^= 1;
    assert_eq!(check_vlog_header(&bad).unwrap_err().kind(), "corruption");

    let frame = encode_vlog_frame(b"stored bytes", 3).unwrap();
    let (crc, codec, len) = decode_vlog_frame(&frame[..9], 12).unwrap();
    assert_eq!((len, codec), (12, 3));
    assert_eq!(frame.len(), 9);
    verify_vlog_frame(b"stored bytes", crc).unwrap();
    assert_eq!(verify_vlog_frame(b"stored bytex", crc).unwrap_err().kind(), "corruption");

    let mut seen = VerifiedFrames::new();
    assert!(seen.verify(32, b"stored bytex", crc).is_err());
    seen.verify(32, b"stored bytes", crc).unwrap();
    seen.verify(32, b"anything: it was checked", crc).unwrap();
    assert!(seen.verify(64, b"stored bytex", crc).is_err());

    assert_eq!(vlog_path_for("/a/7.klog"), "/a/7.vlog");
    assert!(caches_value(10, 10) && !caches_value(10, 11) && !caches_value(0, 0));

    let mut w = Writer::new(opts(8, false, 512), default_comparator()).unwrap();
    assert_eq!(w.place_frame(100), 32);
    assert_eq!(w.place_frame(5), 32 + 9 + 100);
    w.add(b"big", b"0123456789", 1, 0, KIND_PUT, 0, Some(32)).unwrap();
    let (block, _) = w.take_block().unwrap();
    let (raw, _) = split_block(&block, false).unwrap();
    let h = scan_point_entry(
        &default_comparator(),
        ondadb::sst_block::Codec {
            layout: ondadb::sst_entry::EntryLayout::Base,
            delta: false,
            bytewise: true,
        },
        raw,
        0,
        b"big",
        9,
        0,
    )
    .unwrap();
    assert!(matches!(h.value, Some(StoredValue::Logged(32, 10))));
}

#[test]
fn frames_are_found_in_a_log_at_hand() {
    let mut log = encode_vlog_header();
    log.extend_from_slice(&encode_vlog_frame(b"stored", 3).unwrap());
    log.extend_from_slice(b"stored");
    let mut seen = VerifiedFrames::new();
    assert!(matches!(seen.frame_in(&log, 32, 10), Ok(Some((3, b"stored")))));
    assert_eq!(seen.frame_in(&log, 32, 5).unwrap_err().kind(), "corruption");
    assert!(matches!(seen.frame_in(&log[..46], 32, 10), Ok(None)));
    assert!(matches!(seen.frame_in(&log[..40], 32, 10), Ok(None)));
    assert!(matches!(seen.frame_in(&log, 1 << 40, 10), Ok(None)));

    let last = log.len() - 1;
    log[last] ^= 1;
    let mut fresh = VerifiedFrames::new();
    assert_eq!(fresh.frame_in(&log, 32, 10).unwrap_err().kind(), "corruption");
    assert!(seen.frame_in(&log, 32, 10).is_ok());
}

#[test]
fn a_read_goes_to_one_block_or_none() {
    let t = small(200);
    let n = t.reader.data_block_count();
    assert!(n > 1);
    assert_eq!(t.reader.block_for(true, b"", u64::MAX), Some(0));
    assert_eq!(t.reader.block_for(false, b"", u64::MAX), None);
    assert_eq!(t.reader.block_for(true, b"zzzz", u64::MAX), None);
    let last = t.reader.max_key().to_vec();
    assert_eq!(t.reader.block_for(true, &last, u64::MAX), Some(n - 1));
}

#[test]
fn an_open_table_counts_what_it_keeps() {
    let t = small(200);
    let (index, bloom, entries) = t.reader.resident_breakdown(77);
    assert_eq!(bloom, 77);
    assert_eq!(entries, t.reader.data_block_count());
    assert!(index > entries * std::mem::size_of::<IndexEntry>());
    assert_eq!(
        t.reader.resident_bytes(77),
        index + 77 + t.reader.min_key().len() + t.reader.max_key().len()
    );
}

#[test]
fn a_table_may_run_backwards() {
    let rows = [put("c", b"3", 1), put("b", b"new", 5), put("b", b"old", 2), put("a", b"1", 1)];
    let mut w = Writer::new(opts(2, false, 16), Reverse {}).unwrap();
    let mut blocks = Vec::new();
    for r in &rows {
        w.add(&r.key, &r.value, r.seq, r.ttl, r.kind, 0, None).unwrap();
        if w.is_full() {
            let (bytes, _) = w.take_block().unwrap();
            w.block_written(bytes.len() as u64);
            blocks.push(bytes);
        }
    }
    if let Some((bytes, _)) = w.take_block() {
        w.block_written(bytes.len() as u64);
        blocks.push(bytes);
    }
    w.finish_index();
    assert!(blocks.len() > 1);
    let (index, min_key) = w.index();
    let (min_key, index) = decode_index(&encode_index(min_key.unwrap(), index)).unwrap();
    let is_row = |e: &IndexEntry| rows.iter().any(|r| r.key == e.user_key && r.seq == e.seq);
    assert!(index.iter().all(is_row), "the separators of such an order are rows");
    let at = BlockHandle { offset: 0, length: 1 };
    let footer = decode_footer(&encode_footer(&w.footer(at, None, None)), 1000).unwrap();
    let reader = Reader::open("t.klog", 1, Reverse {}, &footer, min_key, index, None).unwrap();
    let get = |key: &[u8], seq: u64| {
        let b = reader.block_for(true, key, seq)?;
        let h = reader.point(&blocks[b], key, seq, 0).unwrap();
        inline(&h).map(|v| v.to_vec())
    };
    assert_eq!(get(b"b", 9).as_deref(), Some(&b"new"[..]));
    assert_eq!(get(b"b", 4).as_deref(), Some(&b"old"[..]));
    assert_eq!(get(b"b", 1), None);
    assert_eq!(get(b"a", 1).as_deref(), Some(&b"1"[..]));
    assert_eq!(get(b"0", 1), None);

    let mut it = SstIterator::new(&reader);
    let mut keys = Vec::new();
    let mut wanted = it.seek_to_first();
    loop {
        while let Some(b) = wanted {
            wanted = it.supply(Ok(blocks[b].clone()));
        }
        if !it.valid() {
            break;
        }
        keys.push((it.user_key().to_vec(), it.seq()));
        wanted = it.next();
    }
    let want: Vec<_> = rows.iter().map(|r| (r.key.clone(), r.seq)).collect();
    assert_eq!(keys, want);
}
