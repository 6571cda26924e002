use fpkgi::bytes::{extract_string, read_u16_be, read_u16_le, read_u32_be, read_u32_le, read_u64_be, ShortRead};
use fpkgi::package::{
    ContentCategory, DRMCategory, IROCategory, PS4Package, PkgError, parse_entry_id,
};
use fpkgi::sfo::{SFOProcessor, SfoError};

fn sfo_bytes(entries: &[(&str, u16, Vec<u8>)]) -> Vec<u8> {
    let count = entries.len();
    let key_table = 20 + 16 * count;
    let mut keys: Vec<u8> = Vec::new();
    let mut key_pos = Vec::new();
    for (k, _, _) in entries {
        key_pos.push(keys.len());
        keys.extend_from_slice(k.as_bytes());
        keys.push(0);
    }
    let data_table = key_table + keys.len();
    let mut data: Vec<u8> = Vec::new();
    let mut data_pos = Vec::new();
    for (_, _, d) in entries {
        data_pos.push(data.len());
        data.extend_from_slice(d);
    }
    let mut out = vec![0u8, b'P', b'S', b'F'];
    out.extend_from_slice(&0x0101u32.to_le_bytes());
    out.extend_from_slice(&(key_table as u32).to_le_bytes());
    out.extend_from_slice(&(data_table as u32).to_le_bytes());
    out.extend_from_slice(&(count as u32).to_le_bytes());
    for (i, (_, ty, d)) in entries.iter().enumerate() {
        out.extend_from_slice(&(key_pos[i] as u16).to_le_bytes());
        out.extend_from_slice(&ty.to_le_bytes());
        out.extend_from_slice(&(d.len() as u32).to_le_bytes());
        out.extend_from_slice(&(d.len() as u32).to_le_bytes());
        out.extend_from_slice(&(data_pos[i] as u32).to_le_bytes());
    }
    out.extend_from_slice(&keys);
    out.extend_from_slice(&data);
    out
}

fn utf8_value(s: &str, pad: usize) -> Vec<u8> {
    let mut v = s.as_bytes().to_vec();
    v.extend(std::iter::repeat(0u8).take(pad));
    v
}

#[test]
fn reads_integers_in_both_orders() {
    let b = [0x01u8, 0x02, 0x03, 0x04, 0x05, 0x06, 0x07, 0x08];
    let mut pos = 0usize;
    assert_eq!(read_u16_le(&b, &mut pos), Ok(0x0201));
    assert_eq!(pos, 2);
    assert_eq!(read_u16_be(&b, &mut pos), Ok(0x0304));
    assert_eq!(pos, 4);
    let mut pos = 0usize;
    assert_eq!(read_u32_le(&b, &mut pos), Ok(0x04030201));
    assert_eq!(read_u32_be(&b, &mut pos), Ok(0x05060708));
    let mut pos = 0usize;
    assert_eq!(read_u64_be(&b, &mut pos), Ok(0x0102030405060708));
    assert_eq!(pos, 8);
}

#[test]
fn short_read_fails_and_keeps_position() {
    let b = [0x01u8, 0x02, 0x03];
    let mut pos = 1usize;
    assert_eq!(read_u32_be(&b, &mut pos), Err(ShortRead));
    assert_eq!(pos, 1);
    assert_eq!(read_u16_le(&b, &mut pos), Ok(0x0302));
    assert_eq!(read_u16_le(&b, &mut pos), Err(ShortRead));
    let mut far = 10usize;
    assert_eq!(read_u64_be(&b, &mut far), Err(ShortRead));
}

#[test]
fn extracts_nul_terminated_strings() {
    let b = b"abc\0def";
    assert_eq!(extract_string(b, 0), "abc");
    assert_eq!(extract_string(b, 4), "def");
    assert_eq!(extract_string(b, 3), "");
    assert_eq!(extract_string(b, 100), "");
    assert_eq!(extract_string(&[0x66, 0xFF, 0x67], 0), "f\u{FFFD}g");
}

#[test]
fn sfo_decodes_each_value_type() {
    let buf = sfo_bytes(&[
        ("TITLE", 0x0204, utf8_value("Demo", 4)),
        ("APP_TYPE", 0x0404, 7u32.to_le_bytes().to_vec()),
        ("RAW", 0x0004, vec![0xAB, 0x01]),
        ("SHORT", 0x0404, vec![0x10, 0x20]),
    ]);
    let table = SFOProcessor::new().process(buf).unwrap();
    assert_eq!(table.get("TITLE"), Some("Demo".to_string()));
    assert_eq!(table.get("APP_TYPE"), Some("7".to_string()));
    assert_eq!(table.get("RAW"), Some("ab01".to_string()));
    assert_eq!(table.get("SHORT"), Some("1020".to_string()));
    assert_eq!(table.get("MISSING"), None);
    assert_eq!(table.entries.len(), 4);
}

#[test]
fn sfo_later_duplicate_key_wins() {
    let buf = sfo_bytes(&[
        ("CATEGORY", 0x0204, utf8_value("gd", 2)),
        ("CATEGORY", 0x0204, utf8_value("gp", 2)),
    ]);
    let table = SFOProcessor::new().process(buf).unwrap();
    assert_eq!(table.get("CATEGORY"), Some("gp".to_string()));
}

#[test]
fn sfo_rejects_bad_buffers() {
    let p = SFOProcessor::new();
    assert_eq!(p.process(vec![1, 2, 3, 4, 5]).unwrap_err(), SfoError::InvalidMagic);
    assert_eq!(p.process(vec![0, b'P']).unwrap_err(), SfoError::InvalidMagic);
    assert_eq!(p.process(vec![0, b'P', b'S', b'F', 0, 0]).unwrap_err(), SfoError::TooSmallForHeader);
    let mut buf = sfo_bytes(&[("A", 0x0204, utf8_value("x", 1))]);
    buf[16] = 9;
    assert_eq!(p.process(buf).unwrap_err(), SfoError::TooSmallForEntries);
    let long = sfo_bytes(&[("N", 0x0404, vec![1, 0, 0, 0, 0])]);
    assert_eq!(p.process(long).unwrap_err(), SfoError::MalformedInteger);
}

#[test]
fn sfo_skips_rows_out_of_range() {
    let mut buf = sfo_bytes(&[
        ("GOOD", 0x0204, utf8_value("yes", 1)),
        ("BAD", 0x0204, utf8_value("no", 1)),
    ]);
    // Point the second row's data far past the end of the buffer.
    let row = 20 + 16;
    buf[row + 12..row + 16].copy_from_slice(&5000u32.to_le_bytes());
    let table = SFOProcessor::new().process(buf).unwrap();
    assert_eq!(table.get("GOOD"), Some("yes".to_string()));
    assert_eq!(table.get("BAD"), None);
    assert_eq!(table.entries.len(), 1);
}

fn pkg_header(entry_count: u32, table_pos: u32, entry_data_size: u32, content_id: &str) -> Vec<u8> {
    let mut h = vec![0u8; 416];
    h[0..4].copy_from_slice(&0x7F434E54u32.to_be_bytes());
    h[0x10..0x14].copy_from_slice(&entry_count.to_be_bytes());
    h[0x18..0x1C].copy_from_slice(&table_pos.to_be_bytes());
    h[0x1C..0x20].copy_from_slice(&entry_data_size.to_be_bytes());
    h[0x40..0x40 + content_id.len()].copy_from_slice(content_id.as_bytes());
    h[0x70..0x74].copy_from_slice(&0xFu32.to_be_bytes());
    h[0x74..0x78].copy_from_slice(&0x1Bu32.to_be_bytes());
    h[0xA8..0xAC].copy_from_slice(&2u32.to_be_bytes());
    for i in 0..64 {
        h[0x100 + i] = i as u8;
    }
    h
}

fn row(id: u32, name_pos: u32, flag1: u32, offset: u32, size: u32) -> Vec<u8> {
    let mut r = Vec::new();
    r.extend_from_slice(&id.to_be_bytes());
    r.extend_from_slice(&name_pos.to_be_bytes());
    r.extend_from_slice(&flag1.to_be_bytes());
    r.extend_from_slice(&0u32.to_be_bytes());
    r.extend_from_slice(&offset.to_be_bytes());
    r.extend_from_slice(&size.to_be_bytes());
    r.extend_from_slice(&[0u8; 8]);
    r
}

#[test]
fn pkg_header_fields_are_decoded() {
    let h = pkg_header(3, 0x400, 32, "UP1234-CUSA12345_00-DEMO000000000000");
    let hd = PS4Package::parse_header(100_000, &h).unwrap();
    assert_eq!(hd.entry_count, 3);
    assert_eq!(hd.table_pos, 0x400);
    assert_eq!(hd.entry_data_size, 32);
    assert_eq!(hd.content_id, "UP1234-CUSA12345_00-DEMO000000000000");
    assert_eq!(hd.drm_type, DRMCategory::PS4);
    assert_eq!(hd.content_type, ContentCategory::DLC);
    assert_eq!(hd.iro_type, Some(IROCategory::SysTheme));
    assert_eq!(hd.hashes.len(), 4);
    assert_eq!(hd.hashes[0], "000102030405060708090a0b0c0d0e0f");
    assert_eq!(hd.hashes[3], "303132333435363738393a3b3c3d3e3f");
}

#[test]
fn pkg_content_id_is_trimmed_of_nuls() {
    let h = pkg_header(1, 0x400, 0, "EP0001");
    let hd = PS4Package::parse_header(5000, &h).unwrap();
    assert_eq!(hd.content_id, "EP0001");
}

#[test]
fn pkg_bad_magic_is_rejected() {
    let mut h = pkg_header(1, 0x400, 0, "UP0001");
    h[0..4].copy_from_slice(&[0, 0, 0, 0]);
    assert_eq!(PS4Package::parse_header(5000, &h).unwrap_err(), PkgError::InvalidMagic);
}

#[test]
fn pkg_too_small_is_rejected() {
    let h = pkg_header(1, 0x400, 0, "UP0001");
    assert_eq!(PS4Package::parse_header(415, &h).unwrap_err(), PkgError::TooSmallForHeader);
    assert_eq!(PS4Package::parse_header(5000, &h[..100]).unwrap_err(), PkgError::TooSmallForHeader);
}

fn sample_package() -> PS4Package {
    let h = pkg_header(3, 0x400, 32, "JP0001");
    let hd = PS4Package::parse_header(10_000, &h).unwrap();
    let mut table = Vec::new();
    table.extend(row(0x0200, 0, 0, 0x800, 32));
    table.extend(row(0x1000, 1, 0x8000_0000, 0x900, 100));
    table.extend(row(0x1200, 11, 0, 0x1000, 50));
    let entries = PS4Package::parse_files(&hd, 10_000, &table).unwrap();
    assert_eq!(PS4Package::name_buffer_extent(&hd, &entries), Some((0x800, 32)));
    let mut names = vec![0u8; 32];
    names[1..10].copy_from_slice(b"param.sfo");
    names[11..20].copy_from_slice(b"icon0.png");
    PS4Package::new("/p/foo.pkg".to_string(), 10_000, hd, entries, &names)
}

#[test]
fn pkg_entries_and_names_resolve() {
    let pkg = sample_package();
    assert_eq!(pkg.file_entries.len(), 3);
    let sfo = pkg.locate_file("param.sfo").unwrap();
    assert_eq!(sfo.offset, 0x900);
    assert_eq!(sfo.size, 100);
    assert!(sfo.encrypted);
    assert_eq!(pkg.locate_file("0x1200").unwrap().name.as_deref(), Some("icon0.png"));
    assert!(pkg.locate_file("0x0200").unwrap().name.is_none());
    assert_eq!(pkg.locate_file("missing.bin").unwrap_err(), PkgError::FileNotFound);
    assert_eq!(pkg.locate_file("0x4242").unwrap_err(), PkgError::FileNotFound);
    assert_eq!(pkg.file_extent("icon0.png"), Ok((0x1000, 50)));
}

#[test]
fn pkg_entry_out_of_file_is_rejected() {
    let h = pkg_header(2, 0x400, 8, "JP0001");
    let hd = PS4Package::parse_header(5000, &h).unwrap();
    let mut table = Vec::new();
    table.extend(row(0x0200, 0, 0, 0x800, 8));
    table.extend(row(0x1000, 0, 0, 4990, 100));
    let entries = PS4Package::parse_files(&hd, 5000, &table).unwrap();
    let pkg = PS4Package::new("x.pkg".to_string(), 5000, hd, entries, b"data.bin");
    assert_eq!(pkg.file_extent("0x1000"), Err(PkgError::FileOutOfBounds));
}

#[test]
fn pkg_table_errors() {
    let h = pkg_header(2, 0x400, 8, "JP0001");
    let hd = PS4Package::parse_header(5000, &h).unwrap();
    assert_eq!(hd.entry_table_extent(5000), Ok((0x400, 64)));
    assert_eq!(hd.entry_table_extent(0x420), Err(PkgError::TooSmallForEntryTable));
    assert_eq!(PS4Package::parse_files(&hd, 0x420, &[]).unwrap_err(), PkgError::TooSmallForEntryTable);
    assert_eq!(PS4Package::parse_files(&hd, 5000, &[]).unwrap_err(), PkgError::NoEntries);
    let only = row(0x1000, 0, 0, 0, 0);
    assert_eq!(PS4Package::parse_files(&hd, 5000, &only).unwrap_err(), PkgError::MissingFileTable);
    let far = row(0x0200, 0, 0, 4999, 0);
    assert_eq!(PS4Package::parse_files(&hd, 5000, &far).unwrap_err(), PkgError::TooSmallForNameBuffer);
}

#[test]
fn pkg_duplicate_entry_ids_overwrite() {
    let h = pkg_header(2, 0x400, 0, "JP0001");
    let hd = PS4Package::parse_header(5000, &h).unwrap();
    let mut table = Vec::new();
    table.extend(row(0x0200, 0, 0, 0x10, 1));
    table.extend(row(0x0200, 0, 0, 0x20, 2));
    let entries = PS4Package::parse_files(&hd, 5000, &table).unwrap();
    assert_eq!(entries.len(), 1);
    assert_eq!(entries[0].1.offset, 0x20);
}

#[test]
fn entry_ids_parse_from_hex() {
    assert_eq!(parse_entry_id("0x1200"), Some(0x1200));
    assert_eq!(parse_entry_id("0xFFFFFFFF"), Some(u32::MAX));
    assert_eq!(parse_entry_id("0x100000000"), None);
    assert_eq!(parse_entry_id("0x"), None);
    assert_eq!(parse_entry_id("0xzz"), None);
    assert_eq!(parse_entry_id("1200"), None);
}
