use url_album::pe::{
    check_input, import_name_hits, rva_to_off, patch_time_import, pe_checksum_offset, read_u32, rename_import,
    write_u32, zero_checksum, InputCheck, PatchStop,
};

const OLD_NAME: &[u8] = b"GetSystemTimePreciseAsFileTime";
const NEW_NAME: &[u8] = b"GetSystemTimeAsFileTime";

/// A zero-filled image whose `e_lfanew` points at 0x40, with no export or
/// delay-load directory.
fn blank_image(with_signature: bool) -> Vec<u8> {
    let mut d = vec![0u8; 512];
    d[0x3C] = 0x40;
    if with_signature {
        d[0x40..0x44].copy_from_slice(b"PE\0\0");
    }
    d
}

fn put_name(d: &mut Vec<u8>, at: usize, name: &[u8]) {
    d[at..at + name.len()].copy_from_slice(name);
}

#[test]
fn read_write_u32_round_trip() {
    let mut d = vec![0u8; 8];
    write_u32(&mut d, 2, 0xAABB_CCDD);
    assert_eq!(d, vec![0, 0, 0xDD, 0xCC, 0xBB, 0xAA, 0, 0]);
    assert_eq!(read_u32(&d, 2), 0xAABB_CCDD);
}

#[test]
fn checksum_offset_needs_signature() {
    assert_eq!(pe_checksum_offset(&blank_image(false)), None);
    assert_eq!(pe_checksum_offset(&blank_image(true)), Some(0x40 + 88));
    assert_eq!(pe_checksum_offset(&[0u8; 16]), None);
}

#[test]
fn zero_checksum_reports_old_value() {
    let mut d = blank_image(true);
    write_u32(&mut d, 0x40 + 88, 0x0102_0304);
    assert_eq!(zero_checksum(&mut d), Ok(Some((0x98, 0x0102_0304))));
    assert_eq!(read_u32(&d, 0x98), 0);
    let mut plain = blank_image(false);
    assert_eq!(zero_checksum(&mut plain), Ok(None));
    assert_eq!(plain, blank_image(false));
}

#[test]
fn name_hits_are_all_positions() {
    let hay = b"abcabcab";
    let hits = import_name_hits(hay, b"ab");
    assert_eq!(hits, vec![0, 3, 6]);
    assert!(import_name_hits(b"a", b"abc").is_empty());
}

#[test]
fn rename_pads_with_zeros_and_clears_hint() {
    let mut d = vec![7u8; 10];
    assert!(rename_import(&mut d, 3, 5, b"xy"));
    assert_eq!(d, vec![7, 0, 0, b'x', b'y', 0, 0, 0, 7, 7]);
    let mut e = vec![7u8; 4];
    assert!(!rename_import(&mut e, 1, 2, b"z"));
    assert_eq!(e, vec![7u8; 4]);
}

#[test]
fn patch_stops_when_name_missing() {
    let mut d = blank_image(false);
    let before = d.clone();
    assert!(matches!(patch_time_import(&mut d), Ok(Err(PatchStop::NotFound))));
    assert_eq!(d, before);
}

#[test]
fn patch_stops_when_name_repeated() {
    let mut d = blank_image(false);
    put_name(&mut d, 300, OLD_NAME);
    put_name(&mut d, 400, OLD_NAME);
    let before = d.clone();
    assert!(matches!(patch_time_import(&mut d), Ok(Err(PatchStop::Ambiguous(2)))));
    assert_eq!(d, before);
}

#[test]
fn patch_stops_without_room_for_hint() {
    let mut d = OLD_NAME.to_vec();
    d.push(0);
    let before = d.clone();
    assert!(matches!(patch_time_import(&mut d), Ok(Err(PatchStop::NoHint))));
    assert_eq!(d, before);
}

#[test]
fn patch_renames_and_zeroes_checksum() {
    let mut d = blank_image(true);
    write_u32(&mut d, 0x98, 0xDEAD_BEEF);
    d[298] = 0x34;
    d[299] = 0x12;
    put_name(&mut d, 300, OLD_NAME);
    let rep = patch_time_import(&mut d).unwrap().unwrap();
    assert_eq!(rep.name_off, 300);
    assert_eq!(rep.old_hint, 0x1234);
    assert_eq!(rep.checksum, Some((0x98, 0xDEAD_BEEF)));
    assert!(!rep.bcrypt && !rep.synch && !rep.combase);
    assert_eq!(&d[298..300], &[0, 0]);
    assert_eq!(&d[300..300 + NEW_NAME.len()], NEW_NAME);
    assert!(d[300 + NEW_NAME.len()..300 + OLD_NAME.len()].iter().all(|&b| b == 0));
    assert_eq!(read_u32(&d, 0x98), 0);
}

#[test]
fn patch_without_signature_keeps_checksum_area() {
    let mut d = blank_image(false);
    put_name(&mut d, 300, OLD_NAME);
    let rep = patch_time_import(&mut d).unwrap().unwrap();
    assert_eq!(rep.checksum, None);
    assert_eq!(&d[300..300 + NEW_NAME.len()], NEW_NAME);
}

#[test]
fn garbage_is_not_an_image() {
    assert_eq!(check_input(b"hello, world", OLD_NAME), InputCheck::NotAnImage);
}

#[test]
fn section_size_falls_back_to_raw_size() {
    let mut d = blank_image(true);
    d[0x40 + 6] = 1; // one section, no optional header
    let sh = 0x40 + 24;
    write_u32(&mut d, sh + 12, 0x1000);
    write_u32(&mut d, sh + 16, 0x200);
    write_u32(&mut d, sh + 20, 0x400);
    assert_eq!(rva_to_off(&d, 0x1010), Ok(Some(0x410)));
    assert_eq!(rva_to_off(&d, 0x1200), Ok(None));
    write_u32(&mut d, sh + 8, 0x10);
    assert_eq!(rva_to_off(&d, 0x100F), Ok(Some(0x40F)));
    assert_eq!(rva_to_off(&d, 0x1010), Ok(None));
}
