use memory_analyser::core_dump::OpenError;
use memory_analyser::elf_input::{debug_file_link_base, link_base, file_symbols, open_core, ProgramHeaderRec};

fn u16le(v: &mut Vec<u8>, x: u16) {
    v.extend_from_slice(&x.to_le_bytes());
}
fn u32le(v: &mut Vec<u8>, x: u32) {
    v.extend_from_slice(&x.to_le_bytes());
}
fn u64le(v: &mut Vec<u8>, x: u64) {
    v.extend_from_slice(&x.to_le_bytes());
}

fn phdr(v: &mut Vec<u8>, p_type: u32, offset: u64, vaddr: u64, filesz: u64, memsz: u64, align: u64) {
    u32le(v, p_type);
    u32le(v, 4);
    u64le(v, offset);
    u64le(v, vaddr);
    u64le(v, 0);
    u64le(v, filesz);
    u64le(v, memsz);
    u64le(v, align);
}

/// A little 64-bit core file: a note segment with one `CORE` note of type `note_type`,
/// then a loadable segment of 16 bytes (0 to 15) at 0x10000.
fn core_file(note_type: u32) -> Vec<u8> {
    let mut v = b"\x7FELF".to_vec();
    v.extend_from_slice(&[2, 1, 1, 0]);
    v.resize(16, 0);
    u16le(&mut v, 4);
    u16le(&mut v, 62);
    u32le(&mut v, 1);
    u64le(&mut v, 0);
    u64le(&mut v, 64);
    u64le(&mut v, 0);
    u32le(&mut v, 0);
    u16le(&mut v, 64);
    u16le(&mut v, 56);
    u16le(&mut v, 2);
    u16le(&mut v, 64);
    u16le(&mut v, 0);
    u16le(&mut v, 0);
    assert_eq!(v.len(), 64);
    phdr(&mut v, 4, 176, 0, 24, 0, 0);
    phdr(&mut v, 1, 200, 0x10000, 16, 16, 0x1000);
    assert_eq!(v.len(), 176);
    u32le(&mut v, 5);
    u32le(&mut v, 4);
    u32le(&mut v, note_type);
    v.extend_from_slice(b"CORE\0\0\0\0");
    u32le(&mut v, 0);
    assert_eq!(v.len(), 200);
    v.extend(0u8..16);
    v
}

#[test]
fn open_core_reads_headers_notes_and_memory() {
    // a process-info note (type 3) is known and carries nothing needed
    let d = open_core(core_file(3)).unwrap();
    assert_eq!(d.read_u8(0x10005).unwrap(), 5);
    assert!(d.read_u8(0x10010).is_err());
    assert!(d.threads.is_empty());
}

#[test]
fn open_core_passes_on_the_notes() {
    assert_eq!(open_core(core_file(0x1234)).err(), Some(OpenError::UnknownNote(0x1234)));
}

#[test]
fn open_core_refuses_what_is_not_elf() {
    assert_eq!(open_core(vec![0u8; 100]).err(), Some(OpenError::MalformedElf));
    assert_eq!(open_core(Vec::new()).err(), Some(OpenError::MalformedElf));
}

fn ph(p_type: u32, p_offset: u64, p_vaddr: u64, p_filesz: u64) -> ProgramHeaderRec {
    ProgramHeaderRec { p_type, p_offset, p_vaddr, p_paddr: 0, p_filesz, p_memsz: p_filesz, p_flags: 5, p_align: 0x1000 }
}

#[test]
fn link_base_goes_through_the_first_loadable_segment_holding_the_offset() {
    let phs = vec![
        ph(4, 0x1000, 0x9000, 0x100),
        ph(1, 0, 0x400000, 0x1000),
        ph(1, 0x1000, 0x401000, 0x2000),
        ph(1, 0x1000, 0x801000, 0x2000),
    ];
    assert_eq!(link_base(&phs, 0), 0x400000);
    assert_eq!(link_base(&phs, 0x1800), 0x401800);
    // Past every segment
    assert_eq!(link_base(&phs, 0x3000), 0);
    // A segment without file bytes still holds its own offset
    assert_eq!(link_base(&[ph(1, 0x5000, 0x7000, 0)].to_vec(), 0x5000), 0x7000);
    assert_eq!(link_base(&[ph(1, 0x5000, 0x7000, 0)].to_vec(), 0x5001), 0);
    // The address wraps
    assert_eq!(link_base(&[ph(1, 0x10, u64::MAX, 0x100)].to_vec(), 0x12), 1);
}

#[test]
fn link_base_of_a_file() {
    let f = core_file(1);
    // The core file's loadable segment maps its bytes at 0x10000
    assert_eq!(debug_file_link_base(&f, 200), Some(0x10000));
    assert_eq!(debug_file_link_base(&f, 205), Some(0x10005));
    // The note segment is not loadable
    assert_eq!(debug_file_link_base(&f, 180), Some(0));
    assert_eq!(debug_file_link_base(b"not an elf file", 0), None);
}

#[test]
fn symbols_of_a_file_without_a_symbol_table() {
    assert_eq!(file_symbols(&core_file(1)).map(|v| v.len()), Some(0));
    assert!(file_symbols(b"not an elf file").is_none());
}
