use pack_verify::data;
use pack_verify::engine::verify_pack;
use pack_verify::engine::Mode;
use pack_verify::errors::Error;
use pack_verify::index_file;
use pack_verify::kinds::ObjectKind;

fn sha1(data: &[u8]) -> [u8; 20] {
    let mut h = sha1_smol::Sha1::new();
    h.update(data);
    h.digest().bytes()
}

fn object_name(kind: &str, content: &[u8]) -> [u8; 20] {
    let mut buf = format!("{} {}\0", kind, content.len()).into_bytes();
    buf.extend_from_slice(content);
    sha1(&buf)
}

/// The variable-length entry header: kind bits and inflated size.
fn entry_header(kind: u8, mut size: u64) -> Vec<u8> {
    let mut v = Vec::new();
    let mut b = (kind << 4) | ((size & 15) as u8);
    size >>= 4;
    while size > 0 {
        v.push(b | 0x80);
        b = (size & 0x7f) as u8;
        size >>= 7;
    }
    v.push(b);
    v
}

/// One raw pack entry before assembly.
struct RawEntry {
    header: Vec<u8>,
    payload: Vec<u8>,
    name: [u8; 20],
}

/// Assemble a pack and its version-2 index from raw entries, in order.
fn build_pack_and_index(entries: &[RawEntry]) -> (Vec<u8>, Vec<u8>) {
    let mut pack = Vec::new();
    pack.extend_from_slice(b"PACK");
    pack.extend_from_slice(&2u32.to_be_bytes());
    pack.extend_from_slice(&(entries.len() as u32).to_be_bytes());
    let mut offsets = Vec::new();
    for e in entries {
        offsets.push(pack.len() as u64);
        pack.extend_from_slice(&e.header);
        pack.extend_from_slice(&e.payload);
    }
    let body_hash = sha1(&pack);
    pack.extend_from_slice(&body_hash);

    // crc32 over each whole entry, header included
    let mut crcs = Vec::new();
    for (i, _) in entries.iter().enumerate() {
        let start = offsets[i] as usize;
        let end = if i + 1 < entries.len() {
            offsets[i + 1] as usize
        } else {
            pack.len() - 20
        };
        crcs.push(crc32fast::hash(&pack[start..end]));
    }

    // entries in name order for the index tables
    let mut order: Vec<usize> = (0..entries.len()).collect();
    order.sort_by(|a, b| entries[*a].name.cmp(&entries[*b].name));

    let mut idx = Vec::new();
    idx.extend_from_slice(&[0xff, 0x74, 0x4f, 0x63]);
    idx.extend_from_slice(&2u32.to_be_bytes());
    for b in 0..256usize {
        let c = order
            .iter()
            .filter(|i| (entries[**i].name[0] as usize) <= b)
            .count() as u32;
        idx.extend_from_slice(&c.to_be_bytes());
    }
    for i in &order {
        idx.extend_from_slice(&entries[*i].name);
    }
    for i in &order {
        idx.extend_from_slice(&crcs[*i].to_be_bytes());
    }
    for i in &order {
        idx.extend_from_slice(&(offsets[*i] as u32).to_be_bytes());
    }
    idx.extend_from_slice(&body_hash);
    let idx_hash = sha1(&idx);
    idx.extend_from_slice(&idx_hash);
    (pack, idx)
}

fn parse_both(pack: Vec<u8>, idx: Vec<u8>) -> (data::File, index_file::File) {
    let p = data::File::from_data(pack, String::from("test.pack")).unwrap();
    let i = index_file::File::parse(idx, String::from("test.idx")).unwrap();
    (p, i)
}

fn blob_entry(content: &[u8]) -> RawEntry {
    let mut header = entry_header(3, content.len() as u64);
    let payload = miniz_oxide::deflate::compress_to_vec_zlib(content, 6);
    RawEntry {
        header,
        payload,
        name: object_name("blob", content),
    }
}

#[test]
fn single_blob_verifies() {
    let (pack, idx) = build_pack_and_index(&[blob_entry(b"hello\n")]);
    let (p, i) = parse_both(pack, idx);
    let out = verify_pack(&p, &i, Mode::Sha1CRC32).unwrap();
    assert!(out.success);
    assert_eq!(out.entries.len(), 1);
    let e = &out.entries[0];
    assert_eq!(e.pack_offset, 12);
    assert_eq!(e.kind, ObjectKind::Blob);
    assert_eq!(e.inflated_size, 6);
    assert_eq!(e.num_deltas, 0);
    assert!(e.hash_match);
    assert!(e.crc32_match);
}

#[test]
fn pack_file_header_accessors() {
    let (pack, _) = build_pack_and_index(&[blob_entry(b"hello\n")]);
    let len = pack.len();
    let p = data::File::from_data(pack, String::from("some.pack")).unwrap();
    assert_eq!(p.kind(), data::Kind::V2);
    assert_eq!(p.num_objects(), 1);
    assert_eq!(p.data_len(), len);
    assert_eq!(p.path().as_str(), "some.pack");
}

#[test]
fn bad_pack_magic_is_rejected() {
    assert!(matches!(
        data::File::from_data(b"JUNKJUNKJUNKJUNKJUNKJUNKJUNKJUNK".to_vec(), String::new()),
        Err(Error::MalformedHeader)
    ));
}

#[test]
fn short_index_is_rejected() {
    assert!(matches!(
        index_file::File::parse(vec![0u8; 100], String::new()),
        Err(Error::MalformedHeader)
    ));
}

#[test]
fn ofs_delta_chain_verifies() {
    // base blob at offset 12, an offset delta copying it twice
    let base_content = b"hello\n";
    let base = blob_entry(base_content);
    let base_len = base.header.len() + base.payload.len();
    let delta_offset = 12 + base_len as u64;
    let bias = delta_offset - 12;
    assert!(bias < 128);
    // delta stream: base size 6, result size 12, copy 6 bytes from 0, twice
    let delta_stream = vec![0x06u8, 0x0c, 0x90, 0x06, 0x90, 0x06];
    let mut header = entry_header(6, delta_stream.len() as u64);
    header.push(bias as u8);
    let delta = RawEntry {
        header,
        payload: miniz_oxide::deflate::compress_to_vec_zlib(&delta_stream, 6),
        name: object_name("blob", b"hello\nhello\n"),
    };
    let (pack, idx) = build_pack_and_index(&[base, delta]);
    let (p, i) = parse_both(pack, idx);
    let out = verify_pack(&p, &i, Mode::Sha1CRC32).unwrap();
    assert!(out.success);
    assert_eq!(out.entries.len(), 2);
    let b = out.entries.iter().find(|e| e.pack_offset == 12).unwrap();
    let d = out
        .entries
        .iter()
        .find(|e| e.pack_offset == delta_offset)
        .unwrap();
    assert_eq!(b.num_deltas, 0);
    assert_eq!(d.num_deltas, 1);
    assert_eq!(d.kind, ObjectKind::Blob);
    assert_eq!(d.inflated_size, 12);
    assert!(d.hash_match);
    assert!(d.crc32_match);
}

#[test]
fn ref_delta_chain_verifies() {
    let base_content = b"hello\n";
    let base = blob_entry(base_content);
    let base_name = base.name;
    let delta_stream = vec![0x06u8, 0x0c, 0x90, 0x06, 0x90, 0x06];
    let mut header = entry_header(7, delta_stream.len() as u64);
    header.extend_from_slice(&base_name);
    let delta = RawEntry {
        header,
        payload: miniz_oxide::deflate::compress_to_vec_zlib(&delta_stream, 6),
        name: object_name("blob", b"hello\nhello\n"),
    };
    let (pack, idx) = build_pack_and_index(&[base, delta]);
    let (p, i) = parse_both(pack, idx);
    let out = verify_pack(&p, &i, Mode::Sha1CRC32).unwrap();
    assert!(out.success);
    let d = out.entries.iter().find(|e| e.num_deltas == 1).unwrap();
    assert_eq!(d.inflated_size, 12);
    assert!(d.hash_match);
}

#[test]
fn stale_index_crc_is_reported() {
    let (pack, mut idx) = build_pack_and_index(&[blob_entry(b"hello\n")]);
    // flip one byte of the recorded crc32 and reseal the index checksum
    let crc_pos = 8 + 1024 + 20;
    idx[crc_pos] ^= 0xff;
    let without_trailer = idx.len() - 20;
    let new_hash = sha1(&idx[..without_trailer]);
    idx.truncate(without_trailer);
    idx.extend_from_slice(&new_hash);
    let (p, i) = parse_both(pack, idx);
    let out = verify_pack(&p, &i, Mode::Sha1CRC32).unwrap();
    assert!(!out.success);
    assert!(out.entries[0].hash_match);
    assert!(!out.entries[0].crc32_match);
}

#[test]
fn truncated_pack_fails_preflight() {
    let (mut pack, idx) = build_pack_and_index(&[blob_entry(b"hello\n")]);
    pack.truncate(pack.len() - 4);
    let p = data::File::from_data(pack, String::new()).unwrap();
    let i = index_file::File::parse(idx, String::new()).unwrap();
    assert!(matches!(
        verify_pack(&p, &i, Mode::Sha1CRC32),
        Err(Error::ChecksumMismatch)
    ));
}

#[test]
fn wrong_object_count_fails_preflight() {
    let (mut pack, idx) = build_pack_and_index(&[blob_entry(b"hello\n")]);
    // declare two objects, reseal the pack, leave the index checksum stale
    pack[11] = 2;
    let body = pack.len() - 20;
    let h = sha1(&pack[..body]);
    pack.truncate(body);
    pack.extend_from_slice(&h);
    let p = data::File::from_data(pack, String::new()).unwrap();
    let i = index_file::File::parse(idx, String::new()).unwrap();
    assert!(matches!(
        verify_pack(&p, &i, Mode::Sha1CRC32),
        Err(Error::ChecksumMismatch)
    ));
}

#[test]
fn undefined_kind_bits_are_malformed() {
    let content = b"x";
    let mut e = blob_entry(content);
    e.header = entry_header(5, content.len() as u64);
    let (pack, idx) = build_pack_and_index(&[e]);
    let (p, i) = parse_both(pack, idx);
    assert!(matches!(
        verify_pack(&p, &i, Mode::Sha1CRC32),
        Err(Error::MalformedHeader)
    ));
}

#[test]
fn dangling_offset_delta_is_reported() {
    let base = blob_entry(b"hello\n");
    let delta_stream = vec![0x06u8, 0x0c, 0x90, 0x06, 0x90, 0x06];
    let mut header = entry_header(6, delta_stream.len() as u64);
    header.push(3);  // no entry lies three bytes back
    let delta = RawEntry {
        header,
        payload: miniz_oxide::deflate::compress_to_vec_zlib(&delta_stream, 6),
        name: object_name("blob", b"hello\nhello\n"),
    };
    let (pack, idx) = build_pack_and_index(&[base, delta]);
    let (p, i) = parse_both(pack, idx);
    assert!(matches!(
        verify_pack(&p, &i, Mode::Sha1CRC32),
        Err(Error::DanglingOffsetDelta)
    ));
}

#[test]
fn thin_pack_is_unsupported() {
    let delta_stream = vec![0x06u8, 0x0c, 0x90, 0x06, 0x90, 0x06];
    let mut header = entry_header(7, delta_stream.len() as u64);
    header.extend_from_slice(&[0xabu8; 20]);  // base object not in this pack
    let delta = RawEntry {
        header,
        payload: miniz_oxide::deflate::compress_to_vec_zlib(&delta_stream, 6),
        name: object_name("blob", b"hello\nhello\n"),
    };
    let (pack, idx) = build_pack_and_index(&[delta]);
    let (p, i) = parse_both(pack, idx);
    assert!(matches!(
        verify_pack(&p, &i, Mode::Sha1CRC32),
        Err(Error::ThinPackUnsupported)
    ));
}

#[test]
fn corrupt_stream_fails_decompression() {
    let mut e = blob_entry(b"hello\n");
    e.payload = vec![0u8, 1, 2];
    let (pack, idx) = build_pack_and_index(&[e]);
    let (p, i) = parse_both(pack, idx);
    assert!(matches!(
        verify_pack(&p, &i, Mode::Sha1CRC32),
        Err(Error::DecompressionError)
    ));
}

#[test]
fn wrong_declared_size_is_reported() {
    let mut e = blob_entry(b"hello\n");
    e.header = entry_header(3, 7);  // payload inflates to 6 bytes
    let (pack, idx) = build_pack_and_index(&[e]);
    let (p, i) = parse_both(pack, idx);
    assert!(matches!(
        verify_pack(&p, &i, Mode::Sha1CRC32),
        Err(Error::SizeMismatch)
    ));
}

#[test]
fn tampered_object_fails_its_hash() {
    // compress different content than the name was computed over
    let mut e = blob_entry(b"hello\n");
    e.payload = miniz_oxide::deflate::compress_to_vec_zlib(b"HELLO\n", 6);
    let (pack, idx) = build_pack_and_index(&[e]);
    let (p, i) = parse_both(pack, idx);
    let out = verify_pack(&p, &i, Mode::Sha1CRC32).unwrap();
    assert!(!out.success);
    assert!(!out.entries[0].hash_match);
    // the index crc32 was computed over the tampered bytes, so it matches
    assert!(out.entries[0].crc32_match);
}

#[test]
fn lookup_finds_each_name() {
    let a = blob_entry(b"hello\n");
    let b = blob_entry(b"world\n");
    let a_name = a.name;
    let (_, idx) = build_pack_and_index(&[a, b]);
    let i = index_file::File::parse(idx, String::new()).unwrap();
    assert_eq!(i.count(), 2);
    let pos = i.lookup(&a_name[..]).unwrap();
    assert_eq!(i.name(pos), a_name.to_vec());
    assert_eq!(i.offset(pos), 12);
    assert!(i.lookup(&[0u8; 20][..]).is_none());
}

#[test]
fn empty_pack_verifies() {
    let (pack, idx) = build_pack_and_index(&[]);
    let (p, i) = parse_both(pack, idx);
    let out = verify_pack(&p, &i, Mode::Sha1CRC32).unwrap();
    assert!(out.success);
    assert!(out.entries.is_empty());
}

#[test]
fn malformed_delta_stream_is_reported() {
    let base = blob_entry(b"hello\n");
    let base_len = base.header.len() + base.payload.len();
    let bias = base_len as u64;
    // the stream declares a base of five bytes; the base has six
    let delta_stream = vec![0x05u8, 0x0c, 0x90, 0x06, 0x90, 0x06];
    let mut header = entry_header(6, delta_stream.len() as u64);
    header.push(bias as u8);
    let delta = RawEntry {
        header,
        payload: miniz_oxide::deflate::compress_to_vec_zlib(&delta_stream, 6),
        name: object_name("blob", b"hello\nhello\n"),
    };
    let (pack, idx) = build_pack_and_index(&[base, delta]);
    let (p, i) = parse_both(pack, idx);
    assert!(matches!(
        verify_pack(&p, &i, Mode::Sha1CRC32),
        Err(Error::DeltaStreamMalformed)
    ));
}

#[test]
fn tree_exposes_bases_and_children() {
    let base = blob_entry(b"hello\n");
    let base_len = base.header.len() + base.payload.len();
    let bias = base_len as u64;
    let delta_stream = vec![0x06u8, 0x0c, 0x90, 0x06, 0x90, 0x06];
    let mut header = entry_header(6, delta_stream.len() as u64);
    header.push(bias as u8);
    let delta = RawEntry {
        header,
        payload: miniz_oxide::deflate::compress_to_vec_zlib(&delta_stream, 6),
        name: object_name("blob", b"hello\nhello\n"),
    };
    let (pack, idx) = build_pack_and_index(&[base, delta]);
    let i = index_file::File::parse(idx, String::new()).unwrap();
    let ents = i.sorted_by_offset();
    assert_eq!(ents.len(), 2);
    assert_eq!(ents[0].0, 12);
    let tree = pack_verify::graph::DeltaTree::from_sorted_offsets(&pack, &i, &ents).unwrap();
    assert_eq!(tree.bases(), vec![0]);
    let mut out = Vec::new();
    tree.children(0, &mut out);
    assert_eq!(out, vec![1]);
    tree.children(1, &mut out);
    assert!(out.is_empty());
}

#[test]
fn verification_is_repeatable() {
    // two runs over the same files yield identical statistics
    let base = blob_entry(b"hello\n");
    let base_len = base.header.len() + base.payload.len();
    let delta_stream = vec![0x06u8, 0x0c, 0x90, 0x06, 0x90, 0x06];
    let mut header = entry_header(6, delta_stream.len() as u64);
    header.push(base_len as u8);
    let delta = RawEntry {
        header,
        payload: miniz_oxide::deflate::compress_to_vec_zlib(&delta_stream, 6),
        name: object_name("blob", b"hello\nhello\n"),
    };
    let (pack, idx) = build_pack_and_index(&[base, delta]);
    let (p, i) = parse_both(pack, idx);
    let out1 = verify_pack(&p, &i, Mode::Sha1CRC32).unwrap();
    let out2 = verify_pack(&p, &i, Mode::Sha1CRC32).unwrap();
    assert_eq!(out1.entries, out2.entries);
    assert_eq!(out1.success, out2.success);
}

#[test]
fn mode_is_recorded() {
    let (pack, idx) = build_pack_and_index(&[blob_entry(b"hello\n")]);
    let (p, i) = parse_both(pack, idx);
    let out = verify_pack(&p, &i, Mode::Sha1CRC32DecodeEncode).unwrap();
    assert_eq!(out.mode, Mode::Sha1CRC32DecodeEncode);
    assert!(out.entries[0].decoded_ok.is_none());
    assert!(out.entries[0].re_encoded_matches.is_none());
}
