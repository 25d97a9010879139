//! Reading an ELF core dump from its bytes: its program headers and the notes of its note
//! segments are parsed with the `elf` crate, then the dump is loaded from them.
use vstd::prelude::*;
use crate::bytes::ElfClass;
use crate::core_dump::{dump_view, spec_from_elf, CoreDump, NoteEntry, OpenError, Segment, PT_LOAD, PT_NOTE};
use crate::debug_info::Symbol;

verus! {

#[verifier::external_type_specification]
#[verifier::external_body]
pub struct ExParseError(elf::ParseError);

/// A program header as the ELF file holds it
#[derive(Clone, Copy, Debug)]
pub struct ProgramHeaderRec {
    pub p_type: u32,
    pub p_offset: u64,
    pub p_vaddr: u64,
    pub p_paddr: u64,
    pub p_filesz: u64,
    pub p_memsz: u64,
    pub p_flags: u32,
    pub p_align: u64,
}

/// The class and program headers of the ELF file `data`, as `elf` parses them; `None`
/// where `elf` cannot make out the file: its header does not parse, or its section-header
/// or program-header table is malformed (a wrong entry size, or not within the file).
pub uninterp spec fn elf_program_headers(data: Seq<u8>) -> Option<(ElfClass, Seq<ProgramHeaderRec>)>;

/// The notes of the note segment `ph` of the ELF file `data`, as `elf` parses them;
/// `None` where they cannot be parsed.
pub uninterp spec fn elf_segment_notes(data: Seq<u8>, ph: ProgramHeaderRec) -> Option<Seq<NoteEntry>>;

/// `elf::ElfBytes::minimal_parse` (with the endianness the file gives), then the file's
/// class and its program headers (none where the file has no program header table). The
/// result is named `elf_program_headers`; which parse error comes is not stated.
#[verifier::external_body]
fn read_program_headers(data: &[u8]) -> (r: Result<(ElfClass, Vec<ProgramHeaderRec>), elf::ParseError>)
    ensures
        r is Ok <==> elf_program_headers(data@) is Some,
        r matches Ok((c, v)) ==> elf_program_headers(data@) == Some((c, v@)),
{
    let elf = elf::ElfBytes::<elf::endian::AnyEndian>::minimal_parse(data)?;
    let class = match elf.ehdr.class {
        elf::file::Class::ELF32 => ElfClass::Elf32,
        elf::file::Class::ELF64 => ElfClass::Elf64,
    };
    let phs = match elf.segments() {
        Some(t) => t.iter().map(|p| ProgramHeaderRec { p_type: p.p_type, p_offset: p.p_offset, p_vaddr: p.p_vaddr,
            p_paddr: p.p_paddr, p_filesz: p.p_filesz, p_memsz: p.p_memsz, p_flags: p.p_flags, p_align: p.p_align }).collect(),
        None => Vec::new(),
    };
    Ok((class, phs))
}

/// `elf::ElfBytes::minimal_parse`, then `segment_data_as_notes` on the segment `ph`,
/// each note converted to a `NoteEntry`. The result is named `elf_segment_notes`; which
/// parse error comes is not stated.
#[verifier::external_body]
fn read_segment_notes(data: &[u8], ph: &ProgramHeaderRec) -> (r: Result<Vec<NoteEntry>, elf::ParseError>)
    ensures
        r is Ok <==> elf_segment_notes(data@, *ph) is Some,
        r matches Ok(v) ==> elf_segment_notes(data@, *ph) == Some(v@),
{
    let elf = elf::ElfBytes::<elf::endian::AnyEndian>::minimal_parse(data)?;
    let p = elf::segment::ProgramHeader { p_type: ph.p_type, p_offset: ph.p_offset, p_vaddr: ph.p_vaddr,
        p_paddr: ph.p_paddr, p_filesz: ph.p_filesz, p_memsz: ph.p_memsz, p_flags: ph.p_flags, p_align: ph.p_align };
    Ok(elf.segment_data_as_notes(&p)?.map(|n| match n {
        elf::note::Note::GnuAbiTag(_) => NoteEntry::GnuAbiTag,
        elf::note::Note::GnuBuildId(_) => NoteEntry::GnuBuildId,
        elf::note::Note::Unknown(a) => NoteEntry::Unknown { n_type: a.n_type, name: a.name.to_vec(), desc: a.desc.to_vec() },
    }).collect())
}

/// The segment that the dump is loaded from, for a program header.
pub open spec fn segment_of(ph: ProgramHeaderRec) -> Segment {
    Segment { p_type: ph.p_type, p_offset: ph.p_offset, p_vaddr: ph.p_vaddr, p_memsz: ph.p_memsz }
}

/// The program header `ph` read as a note segment: with an alignment of 4, which some core
/// dumps do not set.
pub open spec fn as_note_segment(ph: ProgramHeaderRec) -> ProgramHeaderRec {
    ProgramHeaderRec { p_align: 4, ..ph }
}

/// The notes of the note segments among `phs`, in order; `None` where one cannot be read.
pub open spec fn notes_of(data: Seq<u8>, phs: Seq<ProgramHeaderRec>) -> Option<Seq<NoteEntry>>
    decreases phs.len(),
{
    if phs.len() == 0 {
        Some(Seq::empty())
    } else {
        match notes_of(data, phs.drop_last()) {
            None => None,
            Some(ns) => if phs.last().p_type == PT_NOTE {
                match elf_segment_notes(data, as_note_segment(phs.last())) {
                    Some(more) => Some(ns + more),
                    None => None,
                }
            } else {
                Some(ns)
            },
        }
    }
}

proof fn lemma_notes_none_extends(data: Seq<u8>, phs: Seq<ProgramHeaderRec>, i: int)
    requires
        0 <= i <= phs.len(),
        notes_of(data, phs.take(i)) is None,
    ensures
        notes_of(data, phs) is None,
    decreases phs.len() - i,
{
    if i < phs.len() {
        assert(phs.take(i + 1).drop_last() =~= phs.take(i));
        lemma_notes_none_extends(data, phs, i + 1);
    } else {
        assert(phs.take(i) =~= phs);
    }
}

/// What the dump is loaded from: its class, its segments and the notes of its note
/// segments; `None` where the ELF file cannot be parsed.
pub open spec fn core_input(data: Seq<u8>) -> Option<(ElfClass, Seq<Segment>, Seq<NoteEntry>)> {
    match elf_program_headers(data) {
        None => None,
        Some((c, phs)) => match notes_of(data, phs) {
            None => None,
            Some(ns) => Some((c, phs.map_values(|ph: ProgramHeaderRec| segment_of(ph)), ns)),
        },
    }
}

/// Loads an ELF core dump from its bytes (see `core_input` and `CoreDump::from_elf`).
pub fn open_core(data: Vec<u8>) -> (r: Result<CoreDump, OpenError>)
    ensures
        match core_input(data@) {
            None => r == Err::<CoreDump, OpenError>(OpenError::MalformedElf),
            Some((c, segs, notes)) => match spec_from_elf(c, segs, notes) {
                Err(e) => r == Err::<CoreDump, OpenError>(e),
                Ok(st) => r matches Ok(d) && dump_view(d) == st && d.file@ == data@,
            },
        },
{
    let (class, phs) = match read_program_headers(data.as_slice()) {
        Ok(x) => x,
        Err(_) => {
            return Err(OpenError::MalformedElf);
        },
    };
    let n = phs.len();
    let mut segments: Vec<Segment> = Vec::new();
    let mut notes: Vec<NoteEntry> = Vec::new();
    for i in 0..n
        invariant
            n == phs@.len(),
            elf_program_headers(data@) == Some((class, phs@)),
            segments@ == phs@.take(i as int).map_values(|ph: ProgramHeaderRec| segment_of(ph)),
            notes_of(data@, phs@.take(i as int)) == Some(notes@),
    {
        let ph = phs[i];
        assert(phs@.take(i + 1).drop_last() =~= phs@.take(i as int));
        segments.push(Segment { p_type: ph.p_type, p_offset: ph.p_offset, p_vaddr: ph.p_vaddr, p_memsz: ph.p_memsz });
        assert(segments@ =~= phs@.take(i + 1).map_values(|ph: ProgramHeaderRec| segment_of(ph)));
        if ph.p_type == PT_NOTE {
            let np = ProgramHeaderRec { p_align: 4, ..ph };
            let more = match read_segment_notes(data.as_slice(), &np) {
                Ok(v) => v,
                Err(_) => {
                    proof {
                        assert(notes_of(data@, phs@.take(i + 1)) is None);
                        lemma_notes_none_extends(data@, phs@, i + 1);
                    }
                    return Err(OpenError::MalformedElf);
                },
            };
            let ghost before = notes@;
            let mut more = more;
            notes.append(&mut more);
            assert(notes@ =~= before + elf_segment_notes(data@, as_note_segment(ph))->Some_0);
        }
    }
    assert(phs@.take(n as int) =~= phs@);
    CoreDump::from_elf(class, segments.as_slice(), notes.as_slice(), data)
}


// ---------------------------------------------------------------------------
// Debug files

/// Program header `ph` is a loadable segment whose file bytes hold offset `file_base` (a
/// segment without file bytes still holds its own offset).
pub open spec fn holds_offset(ph: ProgramHeaderRec, file_base: u64) -> bool {
    &&& ph.p_type == PT_LOAD
    &&& ph.p_offset <= file_base
    &&& file_base - ph.p_offset < if ph.p_filesz == 0 { 1 } else { ph.p_filesz }
}

/// The link-time address of the byte at offset `file_base` of a debug file whose program
/// headers are `phs`: through the first loadable segment that holds that offset (the
/// address wraps past the top of the address space); zero where none does.
pub open spec fn spec_link_base(phs: Seq<ProgramHeaderRec>, file_base: u64) -> u64
    decreases phs.len(),
{
    if phs.len() == 0 {
        0
    } else if holds_offset(phs[0], file_base) {
        ((phs[0].p_vaddr + (file_base - phs[0].p_offset)) % 0x1_0000_0000_0000_0000) as u64
    } else {
        spec_link_base(phs.drop_first(), file_base)
    }
}

proof fn lemma_link_base_skip(phs: Seq<ProgramHeaderRec>, file_base: u64, i: int)
    requires
        0 <= i <= phs.len(),
        forall|j: int| 0 <= j < i ==> !#[trigger] holds_offset(phs[j], file_base),
    ensures
        spec_link_base(phs, file_base) == spec_link_base(phs.skip(i), file_base),
    decreases i,
{
    if i > 0 {
        assert(phs.skip(1) =~= phs.drop_first());
        assert forall|j: int| 0 <= j < i - 1 implies !#[trigger] holds_offset(phs.drop_first()[j], file_base) by {
            assert(phs.drop_first()[j] == phs[j + 1]);
        }
        lemma_link_base_skip(phs.drop_first(), file_base, i - 1);
        assert(phs.drop_first().skip(i - 1) =~= phs.skip(i));
    } else {
        assert(phs.skip(0) =~= phs);
    }
}

/// The link-time address of the byte at offset `file_base` of a debug file whose program
/// headers are `phs` (see `spec_link_base`).
pub fn link_base(phs: &Vec<ProgramHeaderRec>, file_base: u64) -> (r: u64)
    ensures
        r == spec_link_base(phs@, file_base),
{
    let n = phs.len();
    for i in 0..n
        invariant
            n == phs@.len(),
            forall|j: int| 0 <= j < i ==> !#[trigger] holds_offset(phs@[j], file_base),
    {
        let p = phs[i];
        let size = if p.p_filesz == 0 { 1 } else { p.p_filesz };
        if p.p_type == PT_LOAD && p.p_offset <= file_base && file_base - p.p_offset < size {
            proof {
                lemma_link_base_skip(phs@, file_base, i as int);
                assert(phs@.skip(i as int)[0] == phs@[i as int]);
            }
            return p.p_vaddr.wrapping_add(file_base - p.p_offset);
        }
    }
    proof {
        lemma_link_base_skip(phs@, file_base, n as int);
    }
    0
}

/// The link-time address of the byte at offset `file_base` of the debug file `data`;
/// `None` where its ELF header cannot be parsed.
pub fn debug_file_link_base(data: &[u8], file_base: u64) -> (r: Option<u64>)
    ensures
        match elf_program_headers(data@) {
            None => r is None,
            Some((_, phs)) => r == Some(spec_link_base(phs, file_base)),
        },
{
    match read_program_headers(data) {
        Ok((_, phs)) => Some(link_base(&phs, file_base)),
        Err(_) => None,
    }
}

/// An entry of a symbol table: its name, where the string table holds a valid one, its
/// value and its size.
pub struct SymbolEntry {
    pub name: Option<String>,
    pub value: u64,
    pub size: u64,
}

/// A symbol table entry as values.
pub open spec fn entry_view(e: SymbolEntry) -> (Option<Seq<char>>, u64, u64) {
    (match e.name { Some(n) => Some(n@), None => None }, e.value, e.size)
}

/// The entries of the symbol table of the ELF file `data`, in order, as `elf` parses
/// them (none where the file has no symbol table); `None` where the file or its symbol
/// table cannot be parsed.
pub uninterp spec fn elf_symbol_entries(data: Seq<u8>) -> Option<Seq<(Option<Seq<char>>, u64, u64)>>;

/// `elf::ElfBytes::minimal_parse`, then `symbol_table`: each entry that the table's
/// iterator yields, with its name looked up in the string table (`None` where that lookup
/// fails). The result is named `elf_symbol_entries`; which parse error comes is not
/// stated.
#[verifier::external_body]
fn read_symbol_entries(data: &[u8]) -> (r: Result<Vec<SymbolEntry>, elf::ParseError>)
    ensures
        r is Ok <==> elf_symbol_entries(data@) is Some,
        r matches Ok(v) ==> elf_symbol_entries(data@) == Some(v@.map_values(|e: SymbolEntry| entry_view(e))),
{
    let elf = elf::ElfBytes::<elf::endian::AnyEndian>::minimal_parse(data)?;
    Ok(match elf.symbol_table()? {
        Some((symtab, strtab)) => symtab.iter().map(|s| SymbolEntry {
            name: strtab.get(s.st_name as usize).ok().map(|n| n.to_string()), value: s.st_value, size: s.st_size }).collect(),
        None => Vec::new(),
    })
}

/// The symbols that locate something: the entries with a name and a size, in order, as
/// (name, start, size).
pub open spec fn located_symbols(es: Seq<(Option<Seq<char>>, u64, u64)>) -> Seq<(Seq<char>, u64, u64)>
    decreases es.len(),
{
    if es.len() == 0 {
        Seq::empty()
    } else {
        let init = located_symbols(es.drop_last());
        match es.last().0 {
            Some(n) => if es.last().2 != 0 { init.push((n, es.last().1, es.last().2)) } else { init },
            None => init,
        }
    }
}

/// The symbols of the debug file `data` that locate something (see `located_symbols`);
/// `None` where the file or its symbol table cannot be parsed.
pub fn file_symbols(data: &[u8]) -> (r: Option<Vec<Symbol>>)
    ensures
        match elf_symbol_entries(data@) {
            None => r is None,
            Some(es) => r matches Some(v) && v@.map_values(|s: Symbol| (s.name@, s.start, s.size)) == located_symbols(es),
        },
{
    let mut entries = match read_symbol_entries(data) {
        Ok(v) => v,
        Err(_) => {
            return None;
        },
    };
    let ghost all = entries@.map_values(|e: SymbolEntry| entry_view(e));
    let ghost ents = entries@;
    let n = entries.len();
    let mut out: Vec<Symbol> = Vec::new();
    let mut i: usize = 0;
    while i < n
        invariant
            n == ents.len(),
            all == ents.map_values(|e: SymbolEntry| entry_view(e)),
            i <= n,
            entries@ == ents.skip(i as int),
            out@.map_values(|s: Symbol| (s.name@, s.start, s.size)) == located_symbols(all.take(i as int)),
        decreases n - i,
    {
        let e = entries.remove(0);
        proof {
            assert(e == ents[i as int]);
            assert(entries@ =~= ents.skip(i + 1));
            assert(all.take(i + 1).drop_last() =~= all.take(i as int));
            assert(all.take(i + 1).last() == entry_view(e));
        }
        let ghost before = out@;
        match e.name {
            Some(name) => {
                if e.size != 0 {
                    out.push(Symbol { name, start: e.value, size: e.size });
                    assert(out@.map_values(|s: Symbol| (s.name@, s.start, s.size)) =~= before.map_values(|s: Symbol| (s.name@, s.start, s.size))
                        .push((all[i as int].0->Some_0, e.value, e.size)));
                }
            },
            None => {},
        }
        i = i + 1;
    }
    assert(all.take(n as int) =~= all);
    Some(out)
}

} // verus!
