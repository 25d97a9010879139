use memory_analyser::bytes::ElfClass;
use memory_analyser::core_dump::{
    detect_format, CoreDump, DumpFormat, NoteEntry, OpenError, RangeSource, Segment, NT_FILE, NT_PRSTATUS, PT_LOAD,
    PT_NOTE,
};

fn core_note(n_type: u64, desc: Vec<u8>) -> NoteEntry {
    NoteEntry::Unknown { n_type, name: b"CORE\0".to_vec(), desc }
}

fn words(ws: &[u64]) -> Vec<u8> {
    let mut v = Vec::new();
    for w in ws {
        v.extend_from_slice(&w.to_le_bytes());
    }
    v
}

fn prstatus(ip: u64, sp: u64, ax: u64) -> Vec<u8> {
    let mut ws = vec![0u64; 34];
    ws[30] = ip;
    ws[33] = sp;
    ws[24] = ax;
    words(&ws)
}

/// An NT_FILE descriptor (64-bit) listing `files` as (start, end, offset, path).
fn nt_file(files: &[(u64, u64, u64, &str)]) -> Vec<u8> {
    let mut ws = vec![files.len() as u64, 1];
    for f in files {
        ws.push(f.0);
        ws.push(f.1);
        ws.push(f.2);
    }
    let mut v = words(&ws);
    for f in files {
        v.extend_from_slice(f.3.as_bytes());
        v.push(0);
    }
    v
}

fn load(p_offset: u64, p_vaddr: u64, p_memsz: u64) -> Segment {
    Segment { p_type: PT_LOAD, p_offset, p_vaddr, p_memsz }
}

fn sample_file() -> Vec<u8> {
    (0..0x100u32).map(|i| i as u8).collect()
}

fn sample_dump() -> CoreDump {
    let segs = [
        Segment { p_type: PT_NOTE, p_offset: 0x10, p_vaddr: 0, p_memsz: 0 },
        load(0x40, 0x10000, 0x40),
        load(0x80, 0x20000, 0x20),
    ];
    let notes = vec![
        NoteEntry::GnuBuildId,
        core_note(NT_PRSTATUS, prstatus(0x401000, 0x7ffe0000, 42)),
        core_note(NT_FILE, nt_file(&[(0x20000, 0x20020, 0x1000, "/bin/prog"), (0x10000, 0x10040, 0, "/bin/prog")])),
    ];
    CoreDump::from_elf(ElfClass::Elf64, &segs, &notes, sample_file()).unwrap()
}

#[test]
fn detect_format_recognises_the_magic() {
    let mut elf = b"\x7FELF".to_vec();
    elf.resize(16, 0);
    assert_eq!(detect_format(&elf), DumpFormat::Elf);
    let mut mrustc = b"FullDump\x97\r\n\0".to_vec();
    mrustc.resize(16, 0);
    assert_eq!(detect_format(&mrustc), DumpFormat::MRustc);
    assert_eq!(detect_format(&[0u8; 16]), DumpFormat::Unknown);
}

#[test]
fn from_elf_records_threads_ranges_and_modules() {
    let d = sample_dump();
    assert_eq!(d.threads.len(), 1);
    assert_eq!(d.get_thread(0).get_pc(), 0x401000);
    assert_eq!(d.get_thread(0).gp_registers[0], 42);
    assert_eq!(d.get_thread(0).gp_registers[7], 0x7ffe0000);
    assert_eq!(d.memory_ranges.len(), 2);
    assert_eq!(d.memory_ranges[0].dump_file_ofs, RangeSource::Dump { offset: 0x40 });
    // Both ranges start where a file is mapped
    assert!(!d.memory_ranges[0].is_anon);
    assert!(!d.memory_ranges[1].is_anon);
    // One module, at the lowest start address of its mappings
    let m = d.modules();
    assert_eq!(m.len(), 1);
    assert_eq!(m[0].path, "/bin/prog");
    assert_eq!(m[0].load_base, 0x10000);
    assert_eq!(m[0].file_base, 0);
    assert_eq!(d.anon_size(), 0);
}

#[test]
fn anonymous_ranges_are_counted() {
    let segs = [load(0x40, 0x10000, 0x40), load(0x80, 0x20000, 0x20)];
    let d = CoreDump::from_elf(ElfClass::Elf64, &segs, &[], sample_file()).unwrap();
    assert!(d.memory_ranges[0].is_anon);
    assert_eq!(d.anon_size(), 0x60);
    assert!(d.modules().is_empty());
}

#[test]
fn reads_come_from_the_file_offset_of_the_range() {
    let d = sample_dump();
    let mut buf = [0u8; 4];
    assert_eq!(d.read_bytes(0x10004, &mut buf), Ok(()));
    assert_eq!(buf, [0x44, 0x45, 0x46, 0x47]);
    assert_eq!(d.read_u8(0x20001), Ok(0x81));
    assert_eq!(d.read_u32(0x10000), Ok(0x43424140));
    assert_eq!(d.read_ptr(0x10008), Ok(0x4f4e4d4c4b4a4948));
    assert!(d.is_valid(0x10000, 0x40));
}

#[test]
fn reads_outside_or_across_ranges_fail() {
    let d = sample_dump();
    let mut buf = [7u8; 4];
    assert_eq!(d.read_bytes(0x30000, &mut buf), Err(()));
    assert_eq!(buf, [7u8; 4]);
    assert!(!d.is_valid(0x1003e, 4));
    assert_eq!(d.read_ptr(0x1003c), Err(()));
    assert!(!d.is_valid(0xffff, 1));
}

#[test]
fn loadable_segment_without_file_data_is_refused() {
    let segs = [load(0, 0x10000, 0x40)];
    assert_eq!(CoreDump::from_elf(ElfClass::Elf64, &segs, &[], vec![]).err(), Some(OpenError::ExternalSegmentData));
}

#[test]
fn unknown_core_note_is_refused() {
    let notes = vec![core_note(0x1234, vec![])];
    assert_eq!(CoreDump::from_elf(ElfClass::Elf64, &[], &notes, vec![]).err(), Some(OpenError::UnknownNote(0x1234)));
}

#[test]
fn notes_of_other_owners_are_passed_over() {
    let notes = vec![NoteEntry::Unknown { n_type: 0x1234, name: b"LINUX\0".to_vec(), desc: vec![] }];
    assert!(CoreDump::from_elf(ElfClass::Elf64, &[], &notes, vec![]).is_ok());
}

#[test]
fn short_prstatus_is_refused() {
    let notes = vec![core_note(NT_PRSTATUS, vec![0u8; 100])];
    assert_eq!(CoreDump::from_elf(ElfClass::Elf64, &[], &notes, vec![]).err(), Some(OpenError::TruncatedNote));
}

#[test]
fn short_file_note_is_refused() {
    let notes = vec![core_note(NT_FILE, words(&[3, 1, 0]))];
    assert_eq!(CoreDump::from_elf(ElfClass::Elf64, &[], &notes, vec![]).err(), Some(OpenError::TruncatedNote));
}

#[test]
fn non_utf8_path_is_refused() {
    let mut desc = words(&[1, 1, 0x1000, 0x2000, 0]);
    desc.extend_from_slice(&[0xff, 0xfe, 0]);
    let notes = vec![core_note(NT_FILE, desc)];
    assert_eq!(CoreDump::from_elf(ElfClass::Elf64, &[], &notes, vec![]).err(), Some(OpenError::MalformedPath));
}

#[test]
fn file_note_of_a_32_bit_dump() {
    let mut desc = Vec::new();
    for w in [2u32, 1, 0x3000, 0x4000, 0x10, 0x1000, 0x2000, 0x20] {
        desc.extend_from_slice(&w.to_le_bytes());
    }
    desc.extend_from_slice(b"/a\0/b\0");
    let notes = vec![core_note(NT_FILE, desc)];
    let d = CoreDump::from_elf(ElfClass::Elf32, &[], &notes, vec![]).unwrap();
    let m = d.modules();
    assert_eq!(m.len(), 2);
    assert_eq!((m[0].load_base, m[0].file_base, m[0].path.as_str()), (0x3000, 0x10, "/a"));
    assert_eq!((m[1].load_base, m[1].file_base, m[1].path.as_str()), (0x1000, 0x20, "/b"));
}

#[test]
fn a_prefix_of_a_readable_area_reads_the_same_bytes() {
    let d = sample_dump();
    let mut long = [0u8; 16];
    let mut short = [0u8; 5];
    assert_eq!(d.read_bytes(0x10010, &mut long), Ok(()));
    assert_eq!(d.read_bytes(0x10010, &mut short), Ok(()));
    assert_eq!(&long[..5], &short[..]);
    assert_eq!(d.checked_anon_size(), Some(0));
}

#[test]
fn paths_naming_the_same_file_make_one_module() {
    let notes = vec![core_note(
        NT_FILE,
        nt_file(&[
            (0x3000, 0x4000, 0x10, "/lib//a.so"),
            (0x1000, 0x2000, 0x20, "/lib/./a.so/"),
            (0x5000, 0x6000, 0x30, "lib/a.so"),
        ]),
    )];
    let d = CoreDump::from_elf(ElfClass::Elf64, &[], &notes, vec![]).unwrap();
    let m = d.modules();
    assert_eq!(m.len(), 2);
    // The first path seen is kept, with the lowest start and its offset
    assert_eq!((m[0].load_base, m[0].file_base, m[0].path.as_str()), (0x1000, 0x20, "/lib//a.so"));
    // A relative path is another file
    assert_eq!((m[1].load_base, m[1].path.as_str()), (0x5000, "lib/a.so"));
}
