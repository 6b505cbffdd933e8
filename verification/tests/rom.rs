use smb3r::rom::Rom;

#[test]
fn rom_reads_back_what_it_writes() {
    let mut rom = Rom::from_vec(vec![0u8; 16]);
    assert_eq!(rom.len(), 16);
    rom.write_byte(3, 0x42);
    rom.write_range(8, &[1, 2, 3]);
    assert_eq!(rom.read_byte(3), 0x42);
    assert_eq!(rom.read_range(7, 5), &[0, 1, 2, 3, 0]);
    assert_eq!(rom.read_word(8), 0x0201);
    assert_eq!(rom.as_bytes().len(), 16);
}
