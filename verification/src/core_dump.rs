//! A Linux ELF core dump: its memory ranges, the files mapped into the process and the
//! register state of its threads.
//!
//! The dump's program headers and notes are handed in as plain values; the file's bytes
//! are held to serve memory reads.
use vstd::prelude::*;
use vstd::bytes::{spec_u64_from_le_bytes, spec_u32_from_le_bytes, u64_from_le_bytes, u32_from_le_bytes};
use vstd::utf8::{valid_utf8, decode_utf8};
use crate::bytes::{
    ElfClass, get_nul_str, get_s, get_u64, spec_after_nul_str, spec_nul_str, spec_word, word_size,
};
use crate::text::utf8_to_string;
use crate::file_path::{same_file_path, same_path};
use vstd::slice::SliceAdditionalExecFns;

verus! {

pub const PT_LOAD: u32 = 1;
pub const PT_NOTE: u32 = 4;

pub const NT_PRSTATUS: u64 = 1;
pub const NT_FPREGSET: u64 = 2;
pub const NT_PRPSINFO: u64 = 3;
pub const NT_AUXV: u64 = 6;
pub const NT_SIGINFO: u64 = 0x53494749;
pub const NT_FILE: u64 = 0x46494c45;

/// A failed memory read
pub type ReadError = ();

/// The register state of a thread (AMD64)
#[derive(Clone, Copy, Debug)]
pub struct CpuState {
    pub pc: u64,
    /// RAX, RDX, RCX, RBX, RSI, RDI, RBP, RSP, R8 to R15
    pub gp_registers: [u64; 16],
}

impl CpuState {
    pub fn get_pc(&self) -> (r: u64)
        ensures
            r == self.pc,
    {
        self.pc
    }
}

/// Where the bytes of a memory range come from
#[derive(Clone, Copy, PartialEq, Eq, Structural, Debug)]
pub enum RangeSource {
    Dump { offset: u64 },
    External { file_index: usize, offset: u64 },
}

/// A range of the dumped process's memory
#[derive(Clone, Copy, PartialEq, Eq, Structural, Debug)]
pub struct MemoryRange {
    /// Virtual memory address of start of this range
    pub v_start: u64,
    /// Size of this range in bytes
    pub size: u64,
    /// Offset in the dump file
    pub dump_file_ofs: RangeSource,
    /// Indicates that this is an anonymous binding (no backing file, i.e. dynamic memory)
    pub is_anon: bool,
}

/// Common representation of a mapped (named) file in the core dump
///
/// Used to get debug information
#[derive(Debug)]
pub struct ReferencedFile {
    pub load_base: u64,
    pub file_base: u64,
    pub path: String,
}

/// A program header of the dump file
#[derive(Clone, Copy, PartialEq, Eq, Structural, Debug)]
pub struct Segment {
    pub p_type: u32,
    pub p_offset: u64,
    pub p_vaddr: u64,
    pub p_memsz: u64,
}

/// A note from a `PT_NOTE` segment of the dump file
#[derive(Debug)]
pub enum NoteEntry {
    GnuAbiTag,
    GnuBuildId,
    /// Any other note: its type, name (with its terminating zero) and descriptor
    Unknown { n_type: u64, name: Vec<u8>, desc: Vec<u8> },
}

/// Why a dump cannot be loaded
#[derive(Clone, Copy, PartialEq, Eq, Structural, Debug)]
pub enum OpenError {
    /// A loadable segment whose data is not in the dump file
    ExternalSegmentData,
    /// A `CORE` note of a type this library does not know
    UnknownNote(u64),
    /// A note descriptor shorter than its contents require
    TruncatedNote,
    /// A mapped file's path that is not UTF-8
    MalformedPath,
    /// A file whose ELF headers or notes cannot be parsed
    MalformedElf,
}

/// The kind of a dump file, from its first bytes
#[derive(Clone, Copy, PartialEq, Eq, Structural, Debug)]
pub enum DumpFormat {
    Elf,
    MRustc,
    Unknown,
}

pub open spec fn elf_magic() -> Seq<u8> {
    seq![0x7fu8, 0x45, 0x4c, 0x46]
}

pub open spec fn mrustc_magic() -> Seq<u8> {
    seq![0x46u8, 0x75, 0x6c, 0x6c, 0x44, 0x75, 0x6d, 0x70, 0x97, 0x0d, 0x0a, 0x00]
}

/// Recognises a dump from its first bytes: `\x7FELF` for an ELF core dump,
/// `FullDump\x97\r\n\0` for an mrustc dump.
pub fn detect_format(prefix: &[u8]) -> (r: DumpFormat)
    requires
        prefix@.len() >= 12,
    ensures
        r == if prefix@.take(4) == elf_magic() {
            DumpFormat::Elf
        } else if prefix@.take(12) == mrustc_magic() {
            DumpFormat::MRustc
        } else {
            DumpFormat::Unknown
        },
{
    if prefix[0] == 0x7f && prefix[1] == 0x45 && prefix[2] == 0x4c && prefix[3] == 0x46 {
        assert(prefix@.take(4) =~= elf_magic());
        DumpFormat::Elf
    } else {
        assert(prefix@.take(4) != elf_magic()) by {
            if prefix@.take(4) == elf_magic() {
                assert(prefix@.take(4)[0] == prefix@[0]);
                assert(prefix@.take(4)[1] == prefix@[1]);
                assert(prefix@.take(4)[2] == prefix@[2]);
                assert(prefix@.take(4)[3] == prefix@[3]);
            }
        }
        let m: [u8; 12] = [0x46, 0x75, 0x6c, 0x6c, 0x44, 0x75, 0x6d, 0x70, 0x97, 0x0d, 0x0a, 0x00];
        let mut i: usize = 0;
        while i < 12
            invariant
                i <= 12,
                prefix@.len() >= 12,
                m@ == mrustc_magic(),
                prefix@.take(4) != elf_magic(),
                forall|j: int| 0 <= j < i ==> prefix@[j] == m@[j],
            decreases 12 - i,
        {
            if prefix[i] != m[i] {
                assert(prefix@.take(12) != mrustc_magic()) by {
                    assert(prefix@.take(12)[i as int] == prefix@[i as int]);
                }
                return DumpFormat::Unknown;
            }
            i = i + 1;
        }
        assert(prefix@.take(12) =~= mrustc_magic());
        DumpFormat::MRustc
    }
}

// ---------------------------------------------------------------------------
// Loading

/// The memory ranges of the loadable segments, in order; `None` when one of them has no
/// data in the dump file.
pub open spec fn load_ranges(segs: Seq<Segment>) -> Option<Seq<MemoryRange>>
    decreases segs.len(),
{
    if segs.len() == 0 {
        Some(Seq::empty())
    } else {
        match load_ranges(segs.drop_last()) {
            None => None,
            Some(rest) => {
                let s = segs.last();
                if s.p_type == PT_LOAD {
                    if s.p_offset == 0 {
                        None
                    } else {
                        Some(rest.push(MemoryRange {
                            v_start: s.p_vaddr,
                            size: s.p_memsz,
                            dump_file_ofs: RangeSource::Dump { offset: s.p_offset },
                            is_anon: true,
                        }))
                    }
                } else {
                    Some(rest)
                }
            },
        }
    }
}

/// The 64-bit little-endian word `k` of a note descriptor.
pub open spec fn desc_word(d: Seq<u8>, k: int) -> u64 {
    spec_u64_from_le_bytes(d.subrange(8 * k, 8 * k + 8))
}

/// The thread state held by an `NT_PRSTATUS` descriptor (`struct elf_prstatus` of x86-64:
/// the general registers start at word 14, in `user_regs_struct` order).
pub open spec fn prstatus_cpu(d: Seq<u8>) -> CpuState {
    CpuState {
        pc: desc_word(d, 30),
        gp_registers: [
            desc_word(d, 24), desc_word(d, 26), desc_word(d, 25), desc_word(d, 19),
            desc_word(d, 27), desc_word(d, 28), desc_word(d, 18), desc_word(d, 33),
            desc_word(d, 23), desc_word(d, 22), desc_word(d, 21), desc_word(d, 20),
            desc_word(d, 17), desc_word(d, 16), desc_word(d, 15), desc_word(d, 14),
        ],
    }
}

/// Register `k` of the kernel's `user_regs_struct` for x86-64 (r15, r14, r13, r12, rbp,
/// rbx, r11, r10, r9, r8, rax, rcx, rdx, rsi, rdi, orig_rax, rip, cs, eflags, rsp, ...), as
/// an `NT_PRSTATUS` descriptor holds it: after the 14 words that come before the registers
/// (signal information, pending and held signals, pids and four times).
pub open spec fn user_reg(d: Seq<u8>, k: int) -> u64 {
    spec_u64_from_le_bytes(d.subrange(8 * (14 + k), 8 * (14 + k) + 8))
}

/// The thread state read from an `NT_PRSTATUS` descriptor names each register by its slot
/// in `user_regs_struct`: the program counter is rip, and the general registers are, in
/// order, rax, rdx, rcx, rbx, rsi, rdi, rbp, rsp, then r8 to r15.
pub proof fn law_prstatus_registers(d: Seq<u8>)
    ensures
        prstatus_cpu(d).pc == user_reg(d, 16),
        prstatus_cpu(d).gp_registers[0] == user_reg(d, 10),
        prstatus_cpu(d).gp_registers[1] == user_reg(d, 12),
        prstatus_cpu(d).gp_registers[2] == user_reg(d, 11),
        prstatus_cpu(d).gp_registers[3] == user_reg(d, 5),
        prstatus_cpu(d).gp_registers[4] == user_reg(d, 13),
        prstatus_cpu(d).gp_registers[5] == user_reg(d, 14),
        prstatus_cpu(d).gp_registers[6] == user_reg(d, 4),
        prstatus_cpu(d).gp_registers[7] == user_reg(d, 19),
        prstatus_cpu(d).gp_registers[8] == user_reg(d, 9),
        prstatus_cpu(d).gp_registers[9] == user_reg(d, 8),
        prstatus_cpu(d).gp_registers[10] == user_reg(d, 7),
        prstatus_cpu(d).gp_registers[11] == user_reg(d, 6),
        prstatus_cpu(d).gp_registers[12] == user_reg(d, 3),
        prstatus_cpu(d).gp_registers[13] == user_reg(d, 2),
        prstatus_cpu(d).gp_registers[14] == user_reg(d, 1),
        prstatus_cpu(d).gp_registers[15] == user_reg(d, 0),
{
}

/// The size of the part of an `NT_PRSTATUS` descriptor that is read.
pub open spec fn prstatus_len() -> nat {
    272
}

fn take_word(slice: &mut &[u8], d: Ghost<Seq<u8>>, k: Ghost<int>) -> (v: u64)
    requires
        0 <= k@,
        8 * k@ + 8 <= d@.len(),
        old(slice)@ == d@.skip(8 * k@),
    ensures
        v == desc_word(d@, k@),
        final(slice)@ == d@.skip(8 * (k@ + 1)),
{
    proof {
        assert(d@.skip(8 * k@).take(8) =~= d@.subrange(8 * k@, 8 * k@ + 8));
        assert(d@.skip(8 * k@).skip(8) =~= d@.skip(8 * (k@ + 1)));
    }
    get_u64(slice)
}

/// The thread state of an `NT_PRSTATUS` note.
pub fn parse_prstatus(desc: &[u8]) -> (r: Result<CpuState, OpenError>)
    ensures
        desc@.len() < prstatus_len() ==> r == Err::<CpuState, OpenError>(OpenError::TruncatedNote),
        desc@.len() >= prstatus_len() ==> r == Ok::<CpuState, OpenError>(prstatus_cpu(desc@)),
{
    if desc.len() < 272 {
        return Err(OpenError::TruncatedNote);
    }
    let ghost d = desc@;
    let mut slice: &[u8] = desc;
    assert(d.skip(0) =~= d);
    let mut k: usize = 0;
    while k < 14
        invariant
            k <= 14,
            d == desc@,
            d.len() >= 272,
            slice@ == d.skip(8 * k),
        decreases 14 - k,
    {
        let _ = take_word(&mut slice, Ghost(d), Ghost(k as int));
        k = k + 1;
    }
    let r15 = take_word(&mut slice, Ghost(d), Ghost(14));
    let r14 = take_word(&mut slice, Ghost(d), Ghost(15));
    let r13 = take_word(&mut slice, Ghost(d), Ghost(16));
    let r12 = take_word(&mut slice, Ghost(d), Ghost(17));
    let bp = take_word(&mut slice, Ghost(d), Ghost(18));
    let bx = take_word(&mut slice, Ghost(d), Ghost(19));
    let r11 = take_word(&mut slice, Ghost(d), Ghost(20));
    let r10 = take_word(&mut slice, Ghost(d), Ghost(21));
    let r9 = take_word(&mut slice, Ghost(d), Ghost(22));
    let r8 = take_word(&mut slice, Ghost(d), Ghost(23));
    let ax = take_word(&mut slice, Ghost(d), Ghost(24));
    let cx = take_word(&mut slice, Ghost(d), Ghost(25));
    let dx = take_word(&mut slice, Ghost(d), Ghost(26));
    let si = take_word(&mut slice, Ghost(d), Ghost(27));
    let di = take_word(&mut slice, Ghost(d), Ghost(28));
    let _orig_ax = take_word(&mut slice, Ghost(d), Ghost(29));
    let ip = take_word(&mut slice, Ghost(d), Ghost(30));
    let _cs = take_word(&mut slice, Ghost(d), Ghost(31));
    let _flags = take_word(&mut slice, Ghost(d), Ghost(32));
    let sp = take_word(&mut slice, Ghost(d), Ghost(33));
    Ok(CpuState {
        pc: ip,
        gp_registers: [ax, dx, cx, bx, si, di, bp, sp, r8, r9, r10, r11, r12, r13, r14, r15],
    })
}

/// The word `k` (of class `c`) of a note descriptor.
pub open spec fn file_word(d: Seq<u8>, c: ElfClass, k: int) -> u64 {
    spec_word(d.skip(word_size(c) * k), c)
}

/// `s` after its first `i` zero-terminated strings.
pub open spec fn after_strs(s: Seq<u8>, i: nat) -> Seq<u8>
    decreases i,
{
    if i == 0 {
        s
    } else {
        spec_after_nul_str(after_strs(s, (i - 1) as nat))
    }
}

/// The zero-terminated string `i` of `s`.
pub open spec fn nth_str(s: Seq<u8>, i: nat) -> Seq<u8> {
    spec_nul_str(after_strs(s, i))
}

/// A file mapped into the process: start address, offset in the file, path.
pub type FileView = (u64, u64, Seq<char>);

/// The mapped files listed by an `NT_FILE` descriptor: a count, a page size, then for each
/// file its start, end and file offset, then the paths as zero-terminated strings.
pub open spec fn nt_file_entries(d: Seq<u8>, c: ElfClass) -> Result<Seq<FileView>, OpenError> {
    let ws = word_size(c);
    if d.len() < ws {
        Err(OpenError::TruncatedNote)
    } else {
        let n = (spec_word(d, c) as usize) as nat;
        if d.len() < ws * (2 + 3 * n) {
            Err(OpenError::TruncatedNote)
        } else {
            let base = d.skip((ws * (2 + 3 * n)) as int);
            if exists|i: nat| i < n && !valid_utf8(#[trigger] nth_str(base, i)) {
                Err(OpenError::MalformedPath)
            } else {
                Ok(Seq::new(n, |i: int| (file_word(d, c, 2 + 3 * i), file_word(d, c, 4 + 3 * i), decode_utf8(nth_str(base, i as nat)))))
            }
        }
    }
}

proof fn lemma_skip_skip(d: Seq<u8>, a: int, b: int)
    requires
        0 <= a,
        0 <= b,
        a + b <= d.len(),
    ensures
        d.skip(a).skip(b) == d.skip(a + b),
{
    assert(d.skip(a).skip(b) =~= d.skip(a + b));
}

/// The files listed by an `NT_FILE` note, as start addresses with file offsets, and paths.
pub fn parse_nt_file(desc: &[u8], c: ElfClass) -> (r: Result<(Vec<(u64, u64)>, Vec<String>), OpenError>)
    ensures
        match nt_file_entries(desc@, c) {
            Err(e) => r == Err::<(Vec<(u64, u64)>, Vec<String>), OpenError>(e),
            Ok(fs) => r matches Ok((ents, paths)) && ents@.len() == fs.len() && paths@.len() == fs.len()
                && forall|i: int| 0 <= i < fs.len() ==> #[trigger] fs[i] == (ents@[i].0, ents@[i].1, paths@[i]@),
        },
{
    let ghost d = desc@;
    let ws: usize = match c {
        ElfClass::Elf32 => 4,
        ElfClass::Elf64 => 8,
    };
    if desc.len() < ws {
        return Err(OpenError::TruncatedNote);
    }
    let mut slice: &[u8] = desc;
    let n = get_s(&mut slice, c) as usize;
    if slice.len() < ws {
        proof {
            assert(d.len() < ws * (2 + 3 * (n as nat))) by (nonlinear_arith)
                requires d.len() < 2 * ws, ws > 0;
        }
        return Err(OpenError::TruncatedNote);
    }
    let _page_size = get_s(&mut slice, c);
    proof {
        lemma_skip_skip(d, ws as int, ws as int);
    }
    let mut ents: Vec<(u64, u64)> = Vec::new();
    let mut i: usize = 0;
    while i < n
        invariant
            d == desc@,
            ws == word_size(c),
            ws == 4 || ws == 8,
            n == (spec_word(d, c) as usize),
            i <= n,
            d.len() >= ws * (2 + 3 * i),
            slice@ == d.skip(ws * (2 + 3 * i)),
            ents@.len() == i,
            forall|j: int| 0 <= j < i ==> #[trigger] ents@[j] == (file_word(d, c, 2 + 3 * j), file_word(d, c, 4 + 3 * j)),
        decreases n - i,
    {
        if slice.len() < 3 * ws {
            proof {
                assert(d.len() < ws * (2 + 3 * (n as nat))) by (nonlinear_arith)
                    requires d.len() - ws * (2 + 3 * i) < 3 * ws, i + 1 <= n, ws > 0;
            }
            return Err(OpenError::TruncatedNote);
        }
        proof {
            assert(ws * (2 + 3 * i) + ws == ws * (3 + 3 * i)) by (nonlinear_arith);
            assert(ws * (3 + 3 * i) + ws == ws * (4 + 3 * i)) by (nonlinear_arith);
            assert(ws * (4 + 3 * i) + ws == ws * (2 + 3 * (i + 1))) by (nonlinear_arith);
            lemma_skip_skip(d, ws * (2 + 3 * i), ws as int);
            lemma_skip_skip(d, ws * (3 + 3 * i), ws as int);
            lemma_skip_skip(d, ws * (4 + 3 * i), ws as int);
        }
        let v_start = get_s(&mut slice, c);
        let _v_end = get_s(&mut slice, c);
        let ofs = get_s(&mut slice, c);
        ents.push((v_start, ofs));
        i = i + 1;
    }
    let ghost base = slice@;
    assert(base == d.skip(ws * (2 + 3 * (n as nat))));
    let mut paths: Vec<String> = Vec::new();
    let mut k: usize = 0;
    while k < n
        invariant
            d == desc@,
            ws == word_size(c),
            n == (spec_word(d, c) as usize),
            d.len() >= ws,
            d.len() >= ws * (2 + 3 * (n as nat)),
            base == d.skip(ws * (2 + 3 * (n as nat))),
            k <= n,
            slice@ == after_strs(base, k as nat),
            paths@.len() == k,
            forall|j: nat| j < k ==> valid_utf8(#[trigger] nth_str(base, j)),
            forall|j: int| 0 <= j < k ==> #[trigger] paths@[j]@ == decode_utf8(nth_str(base, j as nat)),
        decreases n - k,
    {
        let s = get_nul_str(&mut slice);
        assert(s@ == nth_str(base, k as nat));
        assert(slice@ == after_strs(base, (k + 1) as nat));
        let p = match utf8_to_string(s) {
            Some(p) => p,
            None => {
                proof {
                    assert(!valid_utf8(nth_str(base, k as nat)));
                    assert(exists|i: nat| i < (n as nat) && !valid_utf8(#[trigger] nth_str(base, i)));
                }
                return Err(OpenError::MalformedPath);
            },
        };
        let ghost old_paths = paths@;
        paths.push(p);
        assert(valid_utf8(nth_str(base, k as nat)));
        assert forall|j: int| 0 <= j < k + 1 implies #[trigger] paths@[j]@ == decode_utf8(nth_str(base, j as nat)) by {
            if j < k {
                assert(paths@[j] == old_paths[j]);
                assert(old_paths[j]@ == decode_utf8(nth_str(base, j as nat)));
            }
        }
        k = k + 1;
    }

    Ok((ents, paths))
}

// ---------------------------------------------------------------------------
// Mapped files

/// A mapped file as recorded: load base, file base, path.
pub type ModView = (u64, u64, Seq<char>);

pub open spec fn mods_view(ms: Seq<ReferencedFile>) -> Seq<ModView> {
    ms.map_values(|m: ReferencedFile| (m.load_base, m.file_base, m.path@))
}

/// The index of the first recorded file whose path names the same file as `p` (compared
/// component by component).
pub open spec fn index_of_path(ms: Seq<ModView>, p: Seq<char>) -> Option<int>
    decreases ms.len(),
{
    if ms.len() == 0 {
        None
    } else if same_file_path(ms[0].2, p) {
        Some(0)
    } else {
        match index_of_path(ms.drop_first(), p) {
            Some(i) => Some(i + 1),
            None => None,
        }
    }
}

proof fn lemma_index_of_path_found(ms: Seq<ModView>, p: Seq<char>, i: int)
    requires
        0 <= i < ms.len(),
        same_file_path(ms[i].2, p),
        forall|j: int| 0 <= j < i ==> !same_file_path(#[trigger] ms[j].2, p),
    ensures
        index_of_path(ms, p) == Some(i),
    decreases ms.len(),
{
    if i > 0 {
        lemma_index_of_path_found(ms.drop_first(), p, i - 1);
    }
}

proof fn lemma_index_of_path_absent(ms: Seq<ModView>, p: Seq<char>)
    requires
        forall|j: int| 0 <= j < ms.len() ==> !same_file_path(#[trigger] ms[j].2, p),
    ensures
        index_of_path(ms, p) is None,
    decreases ms.len(),
{
    if ms.len() > 0 {
        lemma_index_of_path_absent(ms.drop_first(), p);
    }
}

/// Recording mapped file `f`: a file seen before (under a path that names the same file)
/// keeps its first path and the lowest start address, with the file offset that goes with
/// it; a new one is appended.
pub open spec fn merge_one(ms: Seq<ModView>, f: FileView) -> Seq<ModView> {
    match index_of_path(ms, f.2) {
        Some(i) => if ms[i].0 > f.0 { ms.update(i, (f.0, f.1, ms[i].2)) } else { ms },
        None => ms.push((f.0, f.1, f.2)),
    }
}

/// The ranges starting at `v`, marked as backed by a file.
pub open spec fn unanon(rs: Seq<MemoryRange>, v: u64) -> Seq<MemoryRange> {
    rs.map_values(|r: MemoryRange| if r.v_start == v {
        MemoryRange { v_start: r.v_start, size: r.size, dump_file_ofs: r.dump_file_ofs, is_anon: false }
    } else {
        r
    })
}

/// Recording the mapped files `fs` in order.
pub open spec fn merge_files(ms: Seq<ModView>, rs: Seq<MemoryRange>, fs: Seq<FileView>) -> (Seq<ModView>, Seq<MemoryRange>)
    decreases fs.len(),
{
    if fs.len() == 0 {
        (ms, rs)
    } else {
        merge_files(merge_one(ms, fs[0]), unanon(rs, fs[0].0), fs.drop_first())
    }
}

fn find_module(mods: &Vec<ReferencedFile>, p: &str) -> (r: Option<usize>)
    ensures
        r matches Some(i) ==> index_of_path(mods_view(mods@), p@) == Some(i as int) && i < mods@.len(),
        r is None <==> index_of_path(mods_view(mods@), p@) is None,
{
    let n = mods.len();
    for i in 0..n
        invariant
            n == mods@.len(),
            forall|j: int| 0 <= j < i ==> !same_file_path(#[trigger] mods_view(mods@)[j].2, p@),
    {
        if same_path(mods[i].path.as_str(), p) {
            proof {
                lemma_index_of_path_found(mods_view(mods@), p@, i as int);
            }
            return Some(i);
        }
    }
    proof {
        lemma_index_of_path_absent(mods_view(mods@), p@);
    }
    None
}

fn merge_file(mods: &mut Vec<ReferencedFile>, ranges: &mut Vec<MemoryRange>, v_start: u64, ofs: u64, path: String)
    ensures
        mods_view(final(mods)@) == merge_one(mods_view(old(mods)@), (v_start, ofs, path@)),
        final(ranges)@ == unanon(old(ranges)@, v_start),
{
    let ghost ms0 = mods_view(mods@);
    match find_module(mods, path.as_str()) {
        Some(i) => {
            if mods[i].load_base > v_start {
                let m = mods.remove(i);
                mods.insert(i, ReferencedFile { load_base: v_start, file_base: ofs, path: m.path });
                assert(mods_view(mods@) =~= ms0.update(i as int, (v_start, ofs, ms0[i as int].2)));
            }
        },
        None => {
            mods.push(ReferencedFile { file_base: ofs, load_base: v_start, path });
            assert(mods_view(mods@) =~= ms0.push((v_start, ofs, path@)));
        },
    }
    let ghost rs0 = ranges@;
    let n = ranges.len();
    for j in 0..n
        invariant
            n == ranges@.len(),
            n == rs0.len(),
            forall|k: int| 0 <= k < j ==> ranges@[k] == unanon(rs0, v_start)[k],
            forall|k: int| j <= k < n ==> ranges@[k] == rs0[k],
    {
        let r = ranges[j];
        if r.v_start == v_start {
            ranges.set(j, MemoryRange { v_start: r.v_start, size: r.size, dump_file_ofs: r.dump_file_ofs, is_anon: false });
        }
    }
    assert(ranges@ =~= unanon(rs0, v_start));
}

// ---------------------------------------------------------------------------
// The dump

/// What a dump records: its mapped files, memory ranges and thread states.
pub type DumpView = (Seq<ModView>, Seq<MemoryRange>, Seq<CpuState>);

pub open spec fn core_name() -> Seq<u8> {
    seq![0x43u8, 0x4f, 0x52, 0x45, 0x00]
}

/// Reading one note: `CORE` notes give thread states (`NT_PRSTATUS`) and mapped files
/// (`NT_FILE`); other known `CORE` notes and all other notes are passed over.
pub open spec fn apply_note(st: DumpView, note: NoteEntry, c: ElfClass) -> Result<DumpView, OpenError> {
    match note {
        NoteEntry::Unknown { n_type, name, desc } => if name@ != core_name() {
            Ok(st)
        } else if n_type == NT_PRSTATUS {
            if desc@.len() < prstatus_len() {
                Err(OpenError::TruncatedNote)
            } else {
                Ok((st.0, st.1, st.2.push(prstatus_cpu(desc@))))
            }
        } else if n_type == NT_FILE {
            match nt_file_entries(desc@, c) {
                Err(e) => Err(e),
                Ok(fs) => {
                    let m = merge_files(st.0, st.1, fs);
                    Ok((m.0, m.1, st.2))
                },
            }
        } else if n_type == NT_PRPSINFO || n_type == NT_FPREGSET || n_type == NT_SIGINFO || n_type == NT_AUXV {
            Ok(st)
        } else {
            Err(OpenError::UnknownNote(n_type))
        },
        _ => Ok(st),
    }
}

pub open spec fn apply_notes(st: DumpView, notes: Seq<NoteEntry>, c: ElfClass) -> Result<DumpView, OpenError>
    decreases notes.len(),
{
    if notes.len() == 0 {
        Ok(st)
    } else {
        match apply_notes(st, notes.drop_last(), c) {
            Err(e) => Err(e),
            Ok(s) => apply_note(s, notes.last(), c),
        }
    }
}

/// What an ELF core dump with program headers `segs` and notes `notes` (from its note
/// segments, in order) records.
pub open spec fn spec_from_elf(c: ElfClass, segs: Seq<Segment>, notes: Seq<NoteEntry>) -> Result<DumpView, OpenError> {
    match load_ranges(segs) {
        None => Err(OpenError::ExternalSegmentData),
        Some(rs) => apply_notes((Seq::empty(), rs, Seq::empty()), notes, c),
    }
}

/// A loaded core dump
pub struct CoreDump {
    pub modules: Vec<ReferencedFile>,
    pub memory_ranges: Vec<MemoryRange>,
    pub threads: Vec<CpuState>,
    /// The bytes of the dump file
    pub file: Vec<u8>,
}

pub open spec fn dump_view(d: CoreDump) -> DumpView {
    (mods_view(d.modules@), d.memory_ranges@, d.threads@)
}

fn is_core(name: &Vec<u8>) -> (b: bool)
    ensures
        b == (name@ == core_name()),
{
    if name.len() == 5 && name[0] == 0x43 && name[1] == 0x4f && name[2] == 0x52 && name[3] == 0x45 && name[4] == 0 {
        assert(name@ =~= core_name());
        true
    } else {
        assert(name@ != core_name()) by {
            if name@ == core_name() {
                assert(name@[0] == 0x43 && name@[4] == 0);
            }
        }
        false
    }
}

fn apply_note_exec(mods: &mut Vec<ReferencedFile>, ranges: &mut Vec<MemoryRange>, threads: &mut Vec<CpuState>, note: &NoteEntry, c: ElfClass) -> (r: Result<(), OpenError>)
    ensures
        match apply_note((mods_view(old(mods)@), old(ranges)@, old(threads)@), *note, c) {
            Err(e) => r == Err::<(), OpenError>(e),
            Ok(st) => r is Ok && st == (mods_view(final(mods)@), final(ranges)@, final(threads)@),
        },
{
    match note {
        NoteEntry::Unknown { n_type, name, desc } => {
            if !is_core(name) {
                return Ok(());
            }
            let n_type = *n_type;
            if n_type == NT_PRSTATUS {
                let cpu = parse_prstatus(desc.as_slice())?;
                threads.push(cpu);
                Ok(())
            } else if n_type == NT_FILE {
                let (ents, paths) = parse_nt_file(desc.as_slice(), c)?;
                let ghost fs = nt_file_entries(desc@, c)->Ok_0;
                let ghost ms0 = mods_view(mods@);
                let ghost rs0 = ranges@;
                let n = ents.len();
                let mut paths = paths;
                let mut k: usize = 0;
                assert(fs.skip(0) =~= fs);
                while k < n
                    invariant
                        n == ents@.len(),
                        n == fs.len(),
                        k <= n,
                        paths@.len() == n - k,
                        forall|i: int| 0 <= i < n - k ==> fs[i + k] == (ents@[i + k].0, ents@[i + k].1, #[trigger] paths@[i]@),
                        merge_files(ms0, rs0, fs) == merge_files(mods_view(mods@), ranges@, fs.skip(k as int)),
                    decreases n - k,
                {
                    let p = paths.remove(0);
                    assert(fs.skip(k as int)[0] == fs[k as int]);
                    assert(fs.skip(k as int).drop_first() =~= fs.skip(k + 1));
                    assert(fs[k as int] == (ents@[k as int].0, ents@[k as int].1, p@));
                    merge_file(mods, ranges, ents[k].0, ents[k].1, p);
                    k = k + 1;
                }
                assert(fs.skip(n as int) =~= Seq::<FileView>::empty());
                Ok(())
            } else if n_type == NT_PRPSINFO || n_type == NT_FPREGSET || n_type == NT_SIGINFO || n_type == NT_AUXV {
                Ok(())
            } else {
                Err(OpenError::UnknownNote(n_type))
            }
        },
        _ => Ok(()),
    }
}

impl CoreDump {
    /// Loads an ELF core dump of class `class` from its program headers, the notes of its
    /// note segments (in order) and the bytes of the dump file.
    pub fn from_elf(class: ElfClass, segments: &[Segment], notes: &[NoteEntry], file: Vec<u8>) -> (r: Result<CoreDump, OpenError>)
        ensures
            match spec_from_elf(class, segments@, notes@) {
                Err(e) => r == Err::<CoreDump, OpenError>(e),
                Ok(st) => r matches Ok(d) && dump_view(d) == st && d.file@ == file@,
            },
    {
        let mut memory_ranges: Vec<MemoryRange> = Vec::new();
        let ns = segments.len();
        for i in 0..ns
            invariant
                ns == segments@.len(),
                load_ranges(segments@.take(i as int)) == Some(memory_ranges@),
        {
            let s = segments[i];
            assert(segments@.take(i + 1).drop_last() =~= segments@.take(i as int));
            if s.p_type == PT_LOAD {
                if s.p_offset == 0 {
                    proof {
                        assert(load_ranges(segments@.take(i + 1)) is None);
                        lemma_load_ranges_none_extends(segments@, (i + 1) as int);
                    }
                    return Err(OpenError::ExternalSegmentData);
                }
                memory_ranges.push(MemoryRange {
                    v_start: s.p_vaddr,
                    size: s.p_memsz,
                    dump_file_ofs: RangeSource::Dump { offset: s.p_offset },
                    is_anon: true,
                });
            }
        }
        assert(segments@.take(ns as int) =~= segments@);
        let mut modules: Vec<ReferencedFile> = Vec::new();
        let mut threads: Vec<CpuState> = Vec::new();
        let ghost st0: DumpView = (Seq::empty(), memory_ranges@, Seq::empty());
        assert(mods_view(modules@) =~= Seq::<ModView>::empty());
        let nn = notes.len();
        for i in 0..nn
            invariant
                nn == notes@.len(),
                load_ranges(segments@) == Some(st0.1),
                st0 == (Seq::<ModView>::empty(), st0.1, Seq::<CpuState>::empty()),
                apply_notes(st0, notes@.take(i as int), class) == Ok::<DumpView, OpenError>(
                    (mods_view(modules@), memory_ranges@, threads@)),
        {
            assert(notes@.take(i + 1).drop_last() =~= notes@.take(i as int));
            let res = apply_note_exec(&mut modules, &mut memory_ranges, &mut threads, &notes[i], class);
            match res {
                Ok(()) => {},
                Err(e) => {
                    proof {
                        lemma_apply_notes_err_extends(st0, notes@, class, (i + 1) as int, e);
                    }
                    return Err(e);
                },
            }
        }
        assert(notes@.take(nn as int) =~= notes@);
        Ok(CoreDump { modules, memory_ranges, threads, file })
    }
}

proof fn lemma_load_ranges_none_extends(segs: Seq<Segment>, i: int)
    requires
        0 <= i <= segs.len(),
        load_ranges(segs.take(i)) is None,
    ensures
        load_ranges(segs) is None,
    decreases segs.len() - i,
{
    if i < segs.len() {
        assert(segs.take(i + 1).drop_last() =~= segs.take(i));
        lemma_load_ranges_none_extends(segs, i + 1);
    } else {
        assert(segs.take(i) =~= segs);
    }
}

proof fn lemma_apply_notes_err_extends(st: DumpView, notes: Seq<NoteEntry>, c: ElfClass, i: int, e: OpenError)
    requires
        0 <= i <= notes.len(),
        apply_notes(st, notes.take(i), c) == Err::<DumpView, OpenError>(e),
    ensures
        apply_notes(st, notes, c) == Err::<DumpView, OpenError>(e),
    decreases notes.len() - i,
{
    if i < notes.len() {
        assert(notes.take(i + 1).drop_last() =~= notes.take(i));
        lemma_apply_notes_err_extends(st, notes, c, i + 1, e);
    } else {
        assert(notes.take(i) =~= notes);
    }
}

// ---------------------------------------------------------------------------
// Reading memory

/// `r` holds address `addr`.
pub open spec fn in_range(r: MemoryRange, addr: u64) -> bool {
    r.v_start <= addr && addr < r.v_start + r.size
}

/// The index of the first range holding `addr`.
pub open spec fn range_index(rs: Seq<MemoryRange>, addr: u64) -> Option<int>
    decreases rs.len(),
{
    if rs.len() == 0 {
        None
    } else if in_range(rs[0], addr) {
        Some(0)
    } else {
        match range_index(rs.drop_first(), addr) {
            Some(i) => Some(i + 1),
            None => None,
        }
    }
}

proof fn lemma_range_index_found(rs: Seq<MemoryRange>, addr: u64, i: int)
    requires
        0 <= i < rs.len(),
        in_range(rs[i], addr),
        forall|j: int| 0 <= j < i ==> !in_range(rs[j], addr),
    ensures
        range_index(rs, addr) == Some(i),
    decreases rs.len(),
{
    if i > 0 {
        lemma_range_index_found(rs.drop_first(), addr, i - 1);
    }
}

proof fn lemma_range_index_absent(rs: Seq<MemoryRange>, addr: u64)
    requires
        forall|j: int| 0 <= j < rs.len() ==> !in_range(rs[j], addr),
    ensures
        range_index(rs, addr) is None,
    decreases rs.len(),
{
    if rs.len() > 0 {
        lemma_range_index_absent(rs.drop_first(), addr);
    }
}

/// The `len` bytes of the process's memory at `addr`: read from the first range holding
/// `addr`, which must hold them all; `None` when they cannot be read.
pub open spec fn spec_read(d: CoreDump, addr: u64, len: nat) -> Option<Seq<u8>> {
    match range_index(d.memory_ranges@, addr) {
        None => None,
        Some(i) => {
            let r = d.memory_ranges@[i];
            let delta = addr - r.v_start;
            if delta + len > r.size {
                None
            } else {
                match r.dump_file_ofs {
                    RangeSource::Dump { offset } => {
                        let o = offset + delta;
                        if o + len <= d.file@.len() {
                            Some(d.file@.subrange(o, o + len))
                        } else {
                            None
                        }
                    },
                    RangeSource::External { .. } => None,
                }
            }
        },
    }
}

/// The total size of the anonymous (not file-backed) ranges.
pub open spec fn anon_total(rs: Seq<MemoryRange>) -> int
    decreases rs.len(),
{
    if rs.len() == 0 {
        0
    } else {
        anon_total(rs.drop_last()) + if rs.last().is_anon { rs.last().size as int } else { 0 }
    }
}

proof fn lemma_anon_total_mono(rs: Seq<MemoryRange>, i: int)
    requires
        0 <= i <= rs.len(),
    ensures
        anon_total(rs.take(i)) <= anon_total(rs),
    decreases rs.len() - i,
{
    if i < rs.len() {
        lemma_anon_total_mono(rs, i + 1);
        assert(rs.take(i + 1).drop_last() =~= rs.take(i));
    } else {
        assert(rs.take(i) =~= rs);
    }
}

impl CoreDump {
    fn locate(&self, addr: u64, len: usize) -> (r: Option<usize>)
        ensures
            match spec_read(*self, addr, len as nat) {
                Some(_) => r matches Some(o) && o + len <= self.file@.len() && spec_read(*self, addr, len as nat)
                    == Some(self.file@.subrange(o as int, o + len)),
                None => r is None,
            },
    {
        let n = self.memory_ranges.len();
        for i in 0..n
            invariant
                n == self.memory_ranges@.len(),
                forall|j: int| 0 <= j < i ==> !in_range(self.memory_ranges@[j], addr),
        {
            let r = self.memory_ranges[i];
            if r.v_start <= addr && addr - r.v_start < r.size {
                proof {
                    lemma_range_index_found(self.memory_ranges@, addr, i as int);
                }
                let delta = addr - r.v_start;
                if len as u64 > r.size - delta {
                    return None;
                }
                match r.dump_file_ofs {
                    RangeSource::Dump { offset } => {
                        let flen = self.file.len();
                        if offset > u64::MAX - delta {
                            assert(offset + delta > flen);
                            return None;
                        }
                        let o = offset + delta;
                        if o > flen as u64 || len > flen - o as usize {
                            return None;
                        }
                        return Some(o as usize);
                    },
                    RangeSource::External { .. } => {
                        return None;
                    },
                }
            }
        }
        proof {
            lemma_range_index_absent(self.memory_ranges@, addr);
        }
        None
    }

    /// Reads the bytes at `addr` from the first memory range that holds `addr`. An
    /// address that no range holds, or a read that runs past the end of its range, is a
    /// failed read (`Err`), which callers pass on: a walk through memory that the dump did
    /// not record stops there.
    pub fn read_bytes(&self, addr: u64, dst: &mut [u8]) -> (r: Result<(), ReadError>)
        ensures
            match spec_read(*self, addr, old(dst)@.len()) {
                Some(b) => r is Ok && final(dst)@ == b,
                None => r is Err && final(dst)@ == old(dst)@,
            },
            final(dst)@.len() == old(dst)@.len(),
    {
        let len = dst.len();
        match self.locate(addr, len) {
            None => Err(()),
            Some(o) => {
                let flen = self.file.len();
                let ghost src = self.file@.subrange(o as int, o + len);
                for j in 0..len
                    invariant
                        len == dst@.len(),
                        flen == self.file@.len(),
                        o + len <= self.file@.len(),
                        src == self.file@.subrange(o as int, o + len),
                        forall|k: int| 0 <= k < j ==> dst@[k] == src[k],
                {
                    dst.set(j, self.file[o + j]);
                }
                assert(dst@ =~= src);
                Ok(())
            },
        }
    }

    /// True when the `len` bytes at `addr` can be read.
    pub fn is_valid(&self, addr: u64, len: usize) -> (b: bool)
        ensures
            b == spec_read(*self, addr, len as nat) is Some,
    {
        self.locate(addr, len).is_some()
    }

    pub fn read_ptr(&self, addr: u64) -> (r: Result<u64, ReadError>)
        ensures
            match spec_read(*self, addr, 8) {
                Some(b) => r == Ok::<u64, ReadError>(spec_u64_from_le_bytes(b)),
                None => r is Err,
            },
    {
        let mut v: Vec<u8> = vec![0u8; 8];
        match self.read_bytes(addr, v.as_mut_slice()) {
            Ok(()) => Ok(u64_from_le_bytes(v.as_slice())),
            Err(e) => Err(e),
        }
    }

    pub fn read_u32(&self, addr: u64) -> (r: Result<u32, ReadError>)
        ensures
            match spec_read(*self, addr, 4) {
                Some(b) => r == Ok::<u32, ReadError>(spec_u32_from_le_bytes(b)),
                None => r is Err,
            },
    {
        let mut v: Vec<u8> = vec![0u8; 4];
        match self.read_bytes(addr, v.as_mut_slice()) {
            Ok(()) => Ok(u32_from_le_bytes(v.as_slice())),
            Err(e) => Err(e),
        }
    }

    pub fn read_u8(&self, addr: u64) -> (r: Result<u8, ReadError>)
        ensures
            match spec_read(*self, addr, 1) {
                Some(b) => r == Ok::<u8, ReadError>(b[0]),
                None => r is Err,
            },
    {
        let mut v: Vec<u8> = vec![0u8; 1];
        match self.read_bytes(addr, v.as_mut_slice()) {
            Ok(()) => Ok(v[0]),
            Err(e) => Err(e),
        }
    }

    /// The total size of the anonymous memory (not backed by a mapped file).
    pub fn anon_size(&self) -> (r: usize)
        requires
            anon_total(self.memory_ranges@) <= usize::MAX,
        ensures
            r == anon_total(self.memory_ranges@),
    {
        let mut total: u64 = 0;
        let n = self.memory_ranges.len();
        for i in 0..n
            invariant
                n == self.memory_ranges@.len(),
                anon_total(self.memory_ranges@) <= usize::MAX,
                total == anon_total(self.memory_ranges@.take(i as int)),
        {
            proof {
                assert(self.memory_ranges@.take(i + 1).drop_last() =~= self.memory_ranges@.take(i as int));
                lemma_anon_total_mono(self.memory_ranges@, i + 1);
            }
            let r = self.memory_ranges[i];
            if r.is_anon {
                total = total + r.size;
            }
        }
        assert(self.memory_ranges@.take(n as int) =~= self.memory_ranges@);
        total as usize
    }

    /// The total size of the anonymous memory, when it fits in a `usize`.
    pub fn checked_anon_size(&self) -> (r: Option<usize>)
        ensures
            match r {
                Some(n) => n == anon_total(self.memory_ranges@),
                None => anon_total(self.memory_ranges@) > usize::MAX,
            },
    {
        let mut total: u128 = 0;
        let n = self.memory_ranges.len();
        for i in 0..n
            invariant
                n == self.memory_ranges@.len(),
                total == anon_total(self.memory_ranges@.take(i as int)),
                total <= i * 0x1_0000_0000_0000_0000,
        {
            proof {
                assert(self.memory_ranges@.take(i + 1).drop_last() =~= self.memory_ranges@.take(i as int));
            }
            let r = self.memory_ranges[i];
            if r.is_anon {
                total = total + r.size as u128;
            }
        }
        assert(self.memory_ranges@.take(n as int) =~= self.memory_ranges@);
        if total <= usize::MAX as u128 {
            Some(total as usize)
        } else {
            None
        }
    }

    pub fn modules(&self) -> (r: &[ReferencedFile])
        ensures
            r@ == self.modules@,
    {
        self.modules.as_slice()
    }

    pub fn get_thread(&self, index: usize) -> (r: &CpuState)
        requires
            index < self.threads@.len(),
        ensures
            *r == self.threads@[index as int],
    {
        &self.threads[index]
    }
}

// ---------------------------------------------------------------------------
// Laws of the mapped files

/// No two recorded files have paths that name the same file.
pub open spec fn distinct_paths(ms: Seq<ModView>) -> bool {
    forall|i: int, j: int| 0 <= i < j < ms.len() ==> !same_file_path(#[trigger] ms[i].2, #[trigger] ms[j].2)
}

proof fn lemma_index_of_path(ms: Seq<ModView>, p: Seq<char>)
    ensures
        index_of_path(ms, p) matches Some(i) ==> 0 <= i < ms.len() && same_file_path(ms[i].2, p),
        index_of_path(ms, p) is None ==> forall|j: int| 0 <= j < ms.len() ==> !same_file_path(#[trigger] ms[j].2, p),
    decreases ms.len(),
{
    if ms.len() > 0 {
        lemma_index_of_path(ms.drop_first(), p);
        assert forall|j: int| 1 <= j < ms.len() implies ms[j] == ms.drop_first()[j - 1] by {}
    }
}

proof fn lemma_merge_one_distinct(ms: Seq<ModView>, f: FileView)
    requires
        distinct_paths(ms),
    ensures
        distinct_paths(merge_one(ms, f)),
{
    lemma_index_of_path(ms, f.2);
    let m = merge_one(ms, f);
    assert forall|i: int, j: int| 0 <= i < j < m.len() implies !same_file_path(#[trigger] m[i].2, #[trigger] m[j].2) by {
        if j < ms.len() {
            assert(m[i].2 == ms[i].2 && m[j].2 == ms[j].2);
        }
    }
}

/// Recording mapped files keeps the recorded paths distinct.
pub proof fn law_merge_distinct(ms: Seq<ModView>, rs: Seq<MemoryRange>, fs: Seq<FileView>)
    requires
        distinct_paths(ms),
    ensures
        distinct_paths(merge_files(ms, rs, fs).0),
    decreases fs.len(),
{
    if fs.len() > 0 {
        lemma_merge_one_distinct(ms, fs[0]);
        law_merge_distinct(merge_one(ms, fs[0]), unanon(rs, fs[0].0), fs.drop_first());
    }
}

proof fn lemma_notes_distinct(st: DumpView, notes: Seq<NoteEntry>, c: ElfClass)
    requires
        distinct_paths(st.0),
    ensures
        apply_notes(st, notes, c) matches Ok(s) ==> distinct_paths(s.0),
    decreases notes.len(),
{
    if notes.len() > 0 {
        lemma_notes_distinct(st, notes.drop_last(), c);
        match apply_notes(st, notes.drop_last(), c) {
            Ok(s) => {
                match notes.last() {
                    NoteEntry::Unknown { n_type, name, desc } => {
                        match nt_file_entries(desc@, c) {
                            Ok(fs) => {
                                law_merge_distinct(s.0, s.1, fs);
                            },
                            Err(_) => {},
                        }
                    },
                    _ => {},
                }
            },
            Err(_) => {},
        }
    }
}

/// The files of a loaded dump are recorded once each: no two of its modules share a path.
pub proof fn law_loaded_modules_distinct(c: ElfClass, segs: Seq<Segment>, notes: Seq<NoteEntry>)
    ensures
        spec_from_elf(c, segs, notes) matches Ok(st) ==> distinct_paths(st.0),
{
    match load_ranges(segs) {
        Some(rs) => {
            lemma_notes_distinct((Seq::empty(), rs, Seq::empty()), notes, c);
        },
        None => {},
    }
}

/// `ms` records the file that path `p` names with a base no higher than `b`.
pub open spec fn records_below(ms: Seq<ModView>, p: Seq<char>, b: u64) -> bool {
    exists|j: int| 0 <= j < ms.len() && same_file_path(#[trigger] ms[j].2, p) && ms[j].0 <= b
}

proof fn lemma_merge_one_keeps(ms: Seq<ModView>, f: FileView, p: Seq<char>, b: u64)
    requires
        records_below(ms, p, b),
    ensures
        records_below(merge_one(ms, f), p, b),
{
    lemma_index_of_path(ms, f.2);
    let j = choose|j: int| 0 <= j < ms.len() && same_file_path(#[trigger] ms[j].2, p) && ms[j].0 <= b;
    let m = merge_one(ms, f);
    assert(m[j].2 == ms[j].2 && m[j].0 <= b);
}

proof fn lemma_merge_files_keeps(ms: Seq<ModView>, rs: Seq<MemoryRange>, fs: Seq<FileView>, p: Seq<char>, b: u64)
    requires
        records_below(ms, p, b),
    ensures
        records_below(merge_files(ms, rs, fs).0, p, b),
    decreases fs.len(),
{
    if fs.len() > 0 {
        lemma_merge_one_keeps(ms, fs[0], p, b);
        lemma_merge_files_keeps(merge_one(ms, fs[0]), unanon(rs, fs[0].0), fs.drop_first(), p, b);
    }
}

/// Each mapped file is recorded with the lowest start address among its mappings: after
/// recording files `fs`, the path of `fs[k]` is recorded with a base no higher than the
/// start of `fs[k]`.
pub proof fn law_merge_lowest(ms: Seq<ModView>, rs: Seq<MemoryRange>, fs: Seq<FileView>, k: int)
    requires
        0 <= k < fs.len(),
    ensures
        records_below(merge_files(ms, rs, fs).0, fs[k].2, fs[k].0),
    decreases fs.len(),
{
    if k == 0 {
        lemma_index_of_path(ms, fs[0].2);
        let m = merge_one(ms, fs[0]);
        match index_of_path(ms, fs[0].2) {
            Some(i) => {
                assert(same_file_path(m[i].2, fs[0].2) && m[i].0 <= fs[0].0);
            },
            None => {
                assert(same_file_path(m[ms.len() as int].2, fs[0].2));
            },
        }
        lemma_merge_files_keeps(m, unanon(rs, fs[0].0), fs.drop_first(), fs[0].2, fs[0].0);
    } else {
        law_merge_lowest(merge_one(ms, fs[0]), unanon(rs, fs[0].0), fs.drop_first(), k - 1);
    }
}

/// Recording mapped files keeps the memory ranges, and a range that starts where a mapped
/// file starts is no longer anonymous.
pub proof fn law_merge_unanon(ms: Seq<ModView>, rs: Seq<MemoryRange>, fs: Seq<FileView>, k: int, j: int)
    requires
        0 <= k < fs.len(),
        0 <= j < rs.len(),
        rs[j].v_start == fs[k].0,
    ensures
        merge_files(ms, rs, fs).1.len() == rs.len(),
        !merge_files(ms, rs, fs).1[j].is_anon,
        merge_files(ms, rs, fs).1[j].v_start == rs[j].v_start,
        merge_files(ms, rs, fs).1[j].size == rs[j].size,
    decreases fs.len(),
{
    lemma_merge_files_ranges(ms, rs, fs);
    if k == 0 {
        let rs1 = unanon(rs, fs[0].0);
        assert(!rs1[j].is_anon);
        lemma_merge_files_keeps_named(merge_one(ms, fs[0]), rs1, fs.drop_first(), j);
    } else {
        law_merge_unanon(merge_one(ms, fs[0]), unanon(rs, fs[0].0), fs.drop_first(), k - 1, j);
    }
}

proof fn lemma_merge_files_ranges(ms: Seq<ModView>, rs: Seq<MemoryRange>, fs: Seq<FileView>)
    ensures
        merge_files(ms, rs, fs).1.len() == rs.len(),
        forall|j: int| 0 <= j < rs.len() ==> #[trigger] merge_files(ms, rs, fs).1[j].v_start == rs[j].v_start
            && merge_files(ms, rs, fs).1[j].size == rs[j].size,
    decreases fs.len(),
{
    if fs.len() > 0 {
        lemma_merge_files_ranges(merge_one(ms, fs[0]), unanon(rs, fs[0].0), fs.drop_first());
    }
}

proof fn lemma_merge_files_keeps_named(ms: Seq<ModView>, rs: Seq<MemoryRange>, fs: Seq<FileView>, j: int)
    requires
        0 <= j < rs.len(),
        !rs[j].is_anon,
    ensures
        !merge_files(ms, rs, fs).1[j].is_anon,
    decreases fs.len(),
{
    if fs.len() > 0 {
        lemma_merge_files_keeps_named(merge_one(ms, fs[0]), unanon(rs, fs[0].0), fs.drop_first(), j);
    }
}

proof fn lemma_range_index_in(rs: Seq<MemoryRange>, addr: u64)
    ensures
        range_index(rs, addr) matches Some(i) ==> 0 <= i < rs.len() && in_range(rs[i], addr),
    decreases rs.len(),
{
    if rs.len() > 0 {
        lemma_range_index_in(rs.drop_first(), addr);
    }
}

/// A read of the first `l2` of `l` readable bytes succeeds and gives their first `l2`.
pub proof fn law_read_prefix(d: CoreDump, addr: u64, l: nat, l2: nat)
    requires
        l2 <= l,
        spec_read(d, addr, l) is Some,
    ensures
        spec_read(d, addr, l2) == Some(spec_read(d, addr, l)->Some_0.take(l2 as int)),
{
    let b = spec_read(d, addr, l)->Some_0;
    lemma_range_index_in(d.memory_ranges@, addr);
    match range_index(d.memory_ranges@, addr) {
        Some(i) => {
            let r = d.memory_ranges@[i];
            match r.dump_file_ofs {
                RangeSource::Dump { offset } => {
                    let o = offset + (addr - r.v_start);
                    assert(o + l <= d.file@.len());
                    assert(b == d.file@.subrange(o, o + l));
                    assert(d.file@.subrange(o, o + l2) =~= d.file@.subrange(o, o + l).take(l2 as int));
                },
                RangeSource::External { .. } => {},
            }
        },
        None => {},
    }
}

} // verus!
