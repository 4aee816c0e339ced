//! Entries of data blocks.

use ondadb::encoding::{append_u64, append_uvarint};
use ondadb::flags;
use ondadb::format::{normalized_entry_flags, KIND_PUT, KIND_SINGLE_DELETE};
use ondadb::sst_block::validate_delta_restarts;
use ondadb::sst_entry::{
    decode_delta_anchor, decode_delta_header, decode_entry, decode_entry_delta, encode_entry, encode_entry_delta,
    DecEntry, EntryLayout,
};

/// A small xorshift generator for arbitrary bytes.
struct FuzzRng(u64);

impl FuzzRng {
    fn new(seed: u64) -> FuzzRng {
        FuzzRng(seed)
    }

    fn next(&mut self) -> u64 {
        self.0 ^= self.0 << 13;
        self.0 ^= self.0 >> 7;
        self.0 ^= self.0 << 17;
        self.0
    }

    fn below(&mut self, n: usize) -> usize {
        (self.next() % (n as u64)) as usize
    }
}

/// A few random flips, cuts and insertions of a seed.
fn fuzz_mutate(rng: &mut FuzzRng, seed: &[u8]) -> Vec<u8> {
    let mut v = seed.to_vec();
    for _ in 0..1 + rng.below(4) {
        match rng.below(4) {
            0 if !v.is_empty() => {
                let i = rng.below(v.len());
                v[i] ^= 1 << rng.below(8);
            }
            1 if !v.is_empty() => {
                let n = rng.below(v.len());
                v.truncate(n);
            }
            2 => {
                let i = rng.below(v.len() + 1);
                v.insert(i, rng.next() as u8);
            }
            _ => {
                let n = rng.below(9);
                for _ in 0..n {
                    v.push(rng.next() as u8);
                }
            }
        }
    }
    v
}


#[test]
fn fuzz_decode_entry_never_panics() {
    let mut seeds: Vec<Vec<u8>> = vec![Vec::new()];
    let mut buf = Vec::new();
    let lay = EntryLayout::Base;
    encode_entry(
        &mut buf,
        lay,
        b"k1",
        b"v",
        1,
        0,
        KIND_PUT,
        false,
        0,
    );
    encode_entry(
        &mut buf,
        lay,
        b"k2",
        b"",
        2,
        0,
        KIND_SINGLE_DELETE,
        false,
        0,
    );
    encode_entry(
        &mut buf,
        lay,
        b"k3",
        b"vvvv",
        3,
        1_700_000_000,
        KIND_PUT,
        true,
        64,
    );
    seeds.push(buf);

    let mut rng = FuzzRng::new(0xD1B5_4A32_D192_ED03);
    for seed in &seeds {
        for _ in 0..2000 {
            let case = fuzz_mutate(&mut rng, seed);
            let at = rng.below(case.len().max(1));
            for layout in [EntryLayout::Base, EntryLayout::Extended] {
                let _ = decode_entry(&case, layout, at);
                let _ = decode_entry(&case, layout, 0);
            }
        }
    }
}

fn raw_entry(fl: u8, key: &[u8], tail: &[u8]) -> Vec<u8> {
    let mut b = vec![fl];
    append_uvarint(&mut b, key.len() as u64);
    append_uvarint(&mut b, tail.len() as u64);
    append_uvarint(&mut b, 5);
    b.extend_from_slice(key);
    b.extend_from_slice(tail);
    b
}

#[test]
fn decode_entry_rejects_unknown_flag_bit() {
    let raw = raw_entry(0x08, b"k", b"v");
    let err = decode_entry(&raw, EntryLayout::Base, 0)
        .expect_err("unknown flag bit must be rejected");
    assert_eq!(err.kind(), "corruption");
}

#[test]
fn decode_entry_rejects_tombstone_with_vlog() {
    let mut raw = raw_entry(flags::TOMBSTONE | flags::HAS_VLOG, b"k", b"");
    append_u64(&mut raw, 0x1234);
    let err = decode_entry(&raw, EntryLayout::Base, 0)
        .expect_err("TOMBSTONE with HAS_VLOG must be rejected");
    assert_eq!(err.kind(), "corruption");
}

#[test]
fn sst_encode_never_sets_vlog_on_tombstone() {
    assert_eq!(
        normalized_entry_flags(true, false, false, true),
        flags::TOMBSTONE
    );
    let mut buf = Vec::new();
    encode_entry(
        &mut buf,
        EntryLayout::Base,
        b"k",
        b"v",
        1,
        0,
        KIND_PUT,
        true,
        0x1234,
    );
    assert_eq!(buf[0], flags::HAS_VLOG);
    let mut buf = Vec::new();
    encode_entry(
        &mut buf,
        EntryLayout::Base,
        b"k",
        b"",
        1,
        0,
        KIND_SINGLE_DELETE,
        false,
        0,
    );
    assert_eq!(buf[0], flags::TOMBSTONE | flags::SINGLE_DELETE);
    let (dec, next) = decode_entry(&buf, EntryLayout::Base, 0).unwrap();
    assert!(dec.tombstone() && dec.single_delete() && !dec.has_vlog());
    assert_eq!(next, buf.len());
}

fn delta_round_trip(prev: &[u8], key: &[u8], value: &[u8], ttl: i64) -> (Vec<u8>, usize) {
    let mut buf = Vec::new();
    let shared = encode_entry_delta(
        &mut buf,
        prev,
        key,
        value,
        7,
        ttl,
        KIND_PUT,
        false,
        0,
    );
    let mut out = prev.to_vec();
    let (dec, next) = decode_entry_delta(&buf, 0, &mut out, true).unwrap();
    assert_eq!(next, buf.len(), "decode must consume the entry exactly");
    assert_eq!(out, key, "reconstructed key");
    assert_eq!(dec.key_shared, shared);
    assert_eq!(dec.seq, 7);
    assert_eq!(dec.ttl, ttl);
    assert_eq!(dec.inline_value(&buf), value);
    (buf, shared)
}

#[test]
fn delta_entry_round_trips_with_shared_prefix() {
    let (buf, shared) = delta_round_trip(b"tenant/a/cluster/1", b"tenant/a/cluster/2", b"v", 0);
    assert_eq!(shared, 17, "only the final byte differs");
    assert!(
        buf.len() < 17,
        "a 1-byte suffix must not carry the whole key: {buf:?}"
    );
    delta_round_trip(b"tenant/a", b"tenant/ab", b"vv", 1_700_000_000);
}

#[test]
fn delta_entry_round_trips_with_zero_shared() {
    let (_, shared) = delta_round_trip(b"", b"anchor-key", b"value", 0);
    assert_eq!(shared, 0, "an anchor stores its whole key");
    let (_, shared) = delta_round_trip(b"aaa", b"zzz", b"value", 0);
    assert_eq!(shared, 0, "nothing shared with an unrelated predecessor");
    delta_round_trip(b"ab", b"abc", b"v", 0);
    delta_round_trip(b"", b"", b"v", 0);
}

#[test]
fn delta_entry_rejects_shared_longer_than_prev() {
    let mut buf = Vec::new();
    encode_entry_delta(
        &mut buf,
        b"abcdef",
        b"abcdefgh",
        b"v",
        1,
        0,
        KIND_PUT,
        false,
        0,
    );
    let mut out = b"abc".to_vec();
    let err = decode_entry_delta(&buf, 0, &mut out, true)
        .expect_err("shared_len past the previous key must be rejected");
    assert_eq!(err.kind(), "corruption");
    assert!(err.to_string().contains("shared_len"), "{err:?}");
    assert_eq!(decode_delta_header(&buf, 0).unwrap().0.key_shared, 6);
}

#[test]
fn delta_entry_rejects_truncated_suffix() {
    let mut buf = Vec::new();
    encode_entry_delta(
        &mut buf,
        b"ab",
        b"abcdefgh",
        b"v",
        1,
        0,
        KIND_PUT,
        false,
        0,
    );
    buf.truncate(buf.len() - 4);
    let mut out = b"ab".to_vec();
    let err = decode_entry_delta(&buf, 0, &mut out, true).expect_err("truncated suffix");
    assert_eq!(err.kind(), "corruption");
}

#[test]
fn delta_entry_rejects_truncated_value() {
    let mut buf = Vec::new();
    encode_entry_delta(
        &mut buf,
        b"ab",
        b"abc",
        b"a-long-value",
        1,
        0,
        KIND_PUT,
        false,
        0,
    );
    buf.truncate(buf.len() - 3);
    let mut out = b"ab".to_vec();
    let err = decode_entry_delta(&buf, 0, &mut out, true).expect_err("truncated value");
    assert_eq!(err.kind(), "corruption");
}

#[test]
fn delta_vlog_entry_carries_eight_offset_bytes() {
    let mut buf = Vec::new();
    encode_entry_delta(
        &mut buf,
        b"key0",
        b"key1",
        &vec![b'x'; 4096],
        9,
        0,
        KIND_PUT,
        true,
        0x1234_5678_9abc_def0,
    );
    let mut out = b"key0".to_vec();
    let (dec, next) = decode_entry_delta(&buf, 0, &mut out, true).unwrap();
    assert_eq!(out, b"key1");
    assert!(dec.has_vlog());
    assert_eq!(dec.vlog_off, 0x1234_5678_9abc_def0);
    assert_eq!(dec.val_len, 4096, "logical length, not the stored 8 bytes");
    assert_eq!(next, buf.len());
    assert_eq!(next - dec.val_start, 8);
}

#[test]
fn delta_entry_rejects_out_of_order_keys_under_bytewise_order() {
    let mut buf = Vec::new();
    encode_entry_delta(
        &mut buf,
        b"",
        b"aaa",
        b"v",
        1,
        0,
        KIND_PUT,
        false,
        0,
    );
    let mut out = b"zzz".to_vec();
    let err = decode_entry_delta(&buf, 0, &mut out, true).expect_err("descending keys");
    assert_eq!(err.kind(), "corruption");
    let mut out = b"zzz".to_vec();
    assert!(decode_entry_delta(&buf, 0, &mut out, false).is_ok());
    let mut buf = Vec::new();
    encode_entry_delta(
        &mut buf,
        b"aaa",
        b"aaa",
        b"v",
        1,
        0,
        KIND_PUT,
        false,
        0,
    );
    let mut out = b"aaa".to_vec();
    assert!(decode_entry_delta(&buf, 0, &mut out, true).is_ok());
}

#[test]
fn delta_restart_validation_rejects_a_malformed_anchor_array() {
    let ok = [0u8, 0, 0, 0, 16, 0, 0, 0];
    assert!(validate_delta_restarts(64, &ok).is_ok());
    assert!(validate_delta_restarts(64, &[4u8, 0, 0, 0]).is_err());
    assert!(validate_delta_restarts(64, &[0u8, 0, 0, 0, 0, 0, 0, 0]).is_err());
    assert!(validate_delta_restarts(8, &[0u8, 0, 0, 0, 16, 0, 0, 0]).is_err());
    assert!(validate_delta_restarts(64, &[]).is_err());
    assert!(validate_delta_restarts(0, &[]).is_ok());
}

#[test]
fn delta_decoder_never_panics_on_arbitrary_bytes() {
    let mut buf = Vec::new();
    let keys: [&[u8]; 6] = [b"", b"a", b"tenant/a/1", b"tenant/a/2", b"tenant/b", b"z"];
    let mut prev: &[u8] = b"";
    for (i, k) in keys.iter().enumerate() {
        encode_entry_delta(
            &mut buf,
            prev,
            k,
            b"value",
            i as u64 + 1,
            if i % 2 == 0 { 0 } else { 1_700_000_000 },
            if i == 3 {
                KIND_SINGLE_DELETE
            } else {
                KIND_PUT
            },
            false,
            0,
        );
        prev = k;
    }
    let seeds = vec![buf, Vec::new()];

    let mut rng = FuzzRng::new(0x51E7_9C42_0AB3_1DD7);
    for seed in &seeds {
        for _ in 0..2000 {
            let case = fuzz_mutate(&mut rng, seed);
            let at = rng.below(case.len().max(1));
            let _ = decode_delta_header(&case, at);
            let _ = decode_delta_header(&case, 0);
            let _ = decode_delta_anchor(&case, at);
            for prev in [&b""[..], &b"tenant/a/1"[..]] {
                let mut key = prev.to_vec();
                let _ = decode_entry_delta(&case, at, &mut key, true);
                let mut key = prev.to_vec();
                let _ = decode_entry_delta(&case, 0, &mut key, false);
            }
            let mut key = Vec::new();
            let mut off = 0usize;
            for _ in 0..64 {
                match decode_entry_delta(&case, off, &mut key, true) {
                    Ok((_, next)) if next > off => off = next,
                    _ => break,
                }
            }
            let _ = validate_delta_restarts(case.len(), &case[..case.len() & !3]);
        }
    }
}


#[test]
fn dec_entry_stays_the_size_it_was() {
    assert_eq!(std::mem::size_of::<DecEntry>(), 72);
}
