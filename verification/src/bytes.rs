//! Little cursors over byte slices, as used for ELF note descriptors.
use vstd::prelude::*;
use vstd::bytes::{spec_u64_from_le_bytes, spec_u32_from_le_bytes, u64_from_le_bytes, u32_from_le_bytes};

verus! {

/// Takes the first eight bytes of `slice` as a little-endian `u64` and advances the cursor.
pub fn get_u64(slice: &mut &[u8]) -> (v: u64)
    requires
        old(slice)@.len() >= 8,
    ensures
        v == spec_u64_from_le_bytes(old(slice)@.take(8)),
        final(slice)@ == old(slice)@.skip(8),
{
    let s: &[u8] = *slice;
    let d = vstd::slice::slice_subrange(s, 0, 8);
    let t = vstd::slice::slice_subrange(s, 8, s.len());
    *slice = t;
    u64_from_le_bytes(d)
}

/// Takes the first four bytes of `slice` as a little-endian `u32` and advances the cursor.
pub fn get_u32(slice: &mut &[u8]) -> (v: u32)
    requires
        old(slice)@.len() >= 4,
    ensures
        v == spec_u32_from_le_bytes(old(slice)@.take(4)),
        final(slice)@ == old(slice)@.skip(4),
{
    let s: &[u8] = *slice;
    let d = vstd::slice::slice_subrange(s, 0, 4);
    let t = vstd::slice::slice_subrange(s, 4, s.len());
    *slice = t;
    u32_from_le_bytes(d)
}

/// The word size of an ELF file
#[derive(Clone, Copy, PartialEq, Eq, Structural, Debug)]
pub enum ElfClass {
    Elf32,
    Elf64,
}

/// The size in bytes of a word of class `c`.
pub open spec fn word_size(c: ElfClass) -> nat {
    match c {
        ElfClass::Elf32 => 4,
        ElfClass::Elf64 => 8,
    }
}

/// The word of class `c` at the start of `s`, little-endian.
pub open spec fn spec_word(s: Seq<u8>, c: ElfClass) -> u64 {
    match c {
        ElfClass::Elf32 => spec_u32_from_le_bytes(s.take(4)) as u64,
        ElfClass::Elf64 => spec_u64_from_le_bytes(s.take(8)),
    }
}

/// Takes a word of class `c` (a `u32` widened, or a `u64`) and advances the cursor.
pub fn get_s(slice: &mut &[u8], c: ElfClass) -> (v: u64)
    requires
        old(slice)@.len() >= word_size(c),
    ensures
        v == spec_word(old(slice)@, c),
        final(slice)@ == old(slice)@.skip(word_size(c) as int),
{
    match c {
        ElfClass::Elf32 => get_u32(slice) as u64,
        ElfClass::Elf64 => get_u64(slice),
    }
}

/// The index of the first zero byte of `s`.
pub open spec fn first_nul(s: Seq<u8>) -> Option<int>
    decreases s.len(),
{
    if s.len() == 0 {
        None
    } else if s[0] == 0 {
        Some(0)
    } else {
        match first_nul(s.drop_first()) {
            Some(i) => Some(i + 1),
            None => None,
        }
    }
}

proof fn lemma_first_nul_found(s: Seq<u8>, i: int)
    requires
        0 <= i < s.len(),
        s[i] == 0,
        forall|j: int| 0 <= j < i ==> s[j] != 0,
    ensures
        first_nul(s) == Some(i),
    decreases s.len(),
{
    if i > 0 {
        lemma_first_nul_found(s.drop_first(), i - 1);
    }
}

proof fn lemma_first_nul_absent(s: Seq<u8>)
    requires
        forall|j: int| 0 <= j < s.len() ==> s[j] != 0,
    ensures
        first_nul(s) is None,
    decreases s.len(),
{
    if s.len() > 0 {
        lemma_first_nul_absent(s.drop_first());
    }
}

/// The string at the start of `s` (up to its first zero byte, or all of `s` when it has none).
pub open spec fn spec_nul_str(s: Seq<u8>) -> Seq<u8> {
    match first_nul(s) {
        Some(o) => s.take(o),
        None => s,
    }
}

/// What remains of `s` after its leading string and terminating zero byte.
pub open spec fn spec_after_nul_str(s: Seq<u8>) -> Seq<u8> {
    match first_nul(s) {
        Some(o) => s.skip(o + 1),
        None => Seq::empty(),
    }
}

/// Takes a zero-terminated string (without its terminator) and advances the cursor past the
/// terminator; without a terminator, takes the whole rest.
pub fn get_nul_str<'a>(slice: &mut &'a [u8]) -> (r: &'a [u8])
    ensures
        r@ == spec_nul_str(old(slice)@),
        final(slice)@ == spec_after_nul_str(old(slice)@),
{
    let s: &'a [u8] = *slice;
    let n = s.len();
    let mut i: usize = 0;
    while i < n
        invariant
            n == s@.len(),
            s@ == old(slice)@,
            *slice == *old(slice),
            i <= n,
            forall|j: int| 0 <= j < i ==> s@[j] != 0,
        decreases n - i,
    {
        if s[i] == 0 {
            proof {
                lemma_first_nul_found(s@, i as int);
            }
            let rv = vstd::slice::slice_subrange(s, 0, i);
            *slice = vstd::slice::slice_subrange(s, i + 1, n);
            return rv;
        }
        i = i + 1;
    }
    proof {
        lemma_first_nul_absent(s@);
    }
    *slice = vstd::slice::slice_subrange(s, n, n);
    assert(s@.take(n as int) =~= s@);
    s
}

} // verus!
