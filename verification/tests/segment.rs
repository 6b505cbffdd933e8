use smb3r::rom::Rom;
use smb3r::segment::{read_segment, write_segment, SegmentEntry, SegmentError};

fn e(obj_id: u8, x: u8, y: u8) -> SegmentEntry {
    SegmentEntry { obj_id, x, y }
}

#[test]
fn write_then_read_gives_entries_in_column_order() {
    let mut rom = Rom::from_vec(vec![0u8; 64]);
    rom.write_byte(10, 0x01);
    let entries = [e(0x52, 0x0C, 0x13), e(0xD6, 0x0B, 0x08), e(0xBA, 0x0B, 0x13)];
    assert_eq!(write_segment(&mut rom, 10, 3, &entries), Ok(()));
    assert_eq!(
        read_segment(&rom, 10, 3),
        vec![e(0xD6, 0x0B, 0x08), e(0xBA, 0x0B, 0x13), e(0x52, 0x0C, 0x13)]
    );
    assert_eq!(rom.read_byte(10), 0x01);
    assert_eq!(rom.read_byte(20), 0x00);
}

#[test]
fn wrong_entry_count_is_refused_and_writes_nothing() {
    let mut rom = Rom::from_vec(vec![0xAAu8; 32]);
    let entries = [e(1, 2, 3), e(4, 5, 6)];
    assert_eq!(write_segment(&mut rom, 0, 3, &entries), Err(SegmentError::CountMismatch));
    assert!(rom.as_bytes().iter().all(|&b| b == 0xAA));
}

#[test]
fn read_segment_skips_the_page_byte() {
    let rom = Rom::from_vec(vec![0x07, 0x9E, 0x06, 0x17, 0x3F, 0x28, 0x17, 0xFF]);
    assert_eq!(read_segment(&rom, 0, 2), vec![e(0x9E, 0x06, 0x17), e(0x3F, 0x28, 0x17)]);
}
