//! Text renderings: escaped byte strings, register states and hexadecimal numbers.
use vstd::prelude::*;
use crate::core_dump::CpuState;
use crate::debug_info::{CompositeField, DebugPool, EnumVariant, Type, TypeRef};
use crate::debug_query::{type_text, wrap_add};
use crate::text::{push_char, push_str, spec_decimal, u64_to_decimal};

verus! {

/// The lowercase hexadecimal digit for `d` (0 to 15).
pub open spec fn hex_digit(d: nat) -> char {
    if d < 10 {
        (('0' as nat) + d) as char
    } else {
        (('a' as nat) + (d - 10)) as char
    }
}

/// The uppercase hexadecimal digit for `d` (0 to 15).
pub open spec fn hex_digit_upper(d: nat) -> char {
    if d < 10 {
        (('0' as nat) + d) as char
    } else {
        (('A' as nat) + (d - 10)) as char
    }
}

/// The lowest `n` hexadecimal digits of `v`, most significant first.
pub open spec fn hex_digits(v: nat, n: nat) -> Seq<char>
    decreases n,
{
    if n == 0 {
        Seq::empty()
    } else {
        hex_digits(v / 16, (n - 1) as nat).push(hex_digit(v % 16))
    }
}

/// Hexadecimal rendering of `v` without leading zeros ("0" for zero).
pub open spec fn spec_hex(v: nat) -> Seq<char>
    decreases v,
{
    if v < 16 {
        seq![hex_digit(v)]
    } else {
        spec_hex(v / 16).push(hex_digit(v % 16))
    }
}

/// The lowercase hexadecimal digit for `d`.
fn hex_digit_char(d: u64) -> (c: char)
    requires
        d < 16,
    ensures
        c == hex_digit(d as nat),
{
    if d == 0 { '0' } else if d == 1 { '1' } else if d == 2 { '2' } else if d == 3 { '3' }
    else if d == 4 { '4' } else if d == 5 { '5' } else if d == 6 { '6' } else if d == 7 { '7' }
    else if d == 8 { '8' } else if d == 9 { '9' } else if d == 10 { 'a' } else if d == 11 { 'b' }
    else if d == 12 { 'c' } else if d == 13 { 'd' } else if d == 14 { 'e' } else { 'f' }
}

/// Appends the hexadecimal rendering of `v` (no leading zeros) to `s`.
fn push_hex(s: &mut String, v: u64)
    ensures
        final(s)@ == old(s)@ + spec_hex(v as nat),
    decreases v,
{
    if v >= 16 {
        push_hex(s, v / 16);
    }
    push_char(s, hex_digit_char(v % 16));
    assert(v < 16 ==> v % 16 == v);
}

/// Appends the lowest `n` hexadecimal digits of `v` to `s`.
fn push_hex_digits(s: &mut String, v: u64, n: u64)
    ensures
        final(s)@ == old(s)@ + hex_digits(v as nat, n as nat),
    decreases n,
{
    if n > 0 {
        push_hex_digits(s, v / 16, n - 1);
        push_char(s, hex_digit_char(v % 16));
    }
}

/// `0x` and the hexadecimal rendering of `v`.
pub(crate) fn u64_to_hex(v: u64) -> (r: String)
    ensures
        r@ == seq!['0', 'x'] + spec_hex(v as nat),
{
    let mut s = String::new();
    push_char(&mut s, '0');
    push_char(&mut s, 'x');
    push_hex(&mut s, v);
    assert(s@ =~= seq!['0', 'x'] + spec_hex(v as nat));
    s
}

/// The 16 hexadecimal digits of `v`.
pub(crate) fn u64_to_hex16(v: u64) -> (r: String)
    ensures
        r@ == hex_digits(v as nat, 16),
{
    let mut s = String::new();
    push_hex_digits(&mut s, v, 16);
    assert(s@ =~= hex_digits(v as nat, 16));
    s
}

// ---------------------------------------------------------------------------
// Byte strings

/// How one byte of a byte string is written: escapes for NUL, tab, newline, carriage return
/// and the double quote, printable ASCII as itself, and `\xHH` for the rest.
pub open spec fn byte_text(b: u8) -> Seq<char> {
    if b == 0 {
        seq!['\\', '0']
    } else if b == 9 {
        seq!['\\', 't']
    } else if b == 10 {
        seq!['\\', 'n']
    } else if b == 13 {
        seq!['\\', 'r']
    } else if b == 0x22 {
        seq!['\\', '"']
    } else if 0x20 <= b && b < 0x7f {
        seq![b as char]
    } else {
        seq!['\\', 'x', hex_digit_upper((b / 16) as nat), hex_digit_upper((b % 16) as nat)]
    }
}

/// The bytes written one after the other.
pub open spec fn bytes_text(bs: Seq<u8>) -> Seq<char>
    decreases bs.len(),
{
    if bs.len() == 0 {
        Seq::empty()
    } else {
        bytes_text(bs.drop_last()) + byte_text(bs.last())
    }
}

fn upper_digit(d: u8) -> (c: char)
    requires
        d < 16,
    ensures
        c == hex_digit_upper(d as nat),
{
    if d < 10 {
        ((0x30u8 + d) as char)
    } else {
        ((0x41u8 + (d - 10)) as char)
    }
}

/// Appends the characters `cs` to `s`.
fn push_chars(s: &mut String, cs: &Vec<char>)
    ensures
        final(s)@ == old(s)@ + cs@,
{
    let ghost s0 = s@;
    let n = cs.len();
    for i in 0..n
        invariant
            n == cs@.len(),
            s@ == s0 + cs@.take(i as int),
    {
        push_char(s, cs[i]);
        assert(s@ =~= s0 + cs@.take(i + 1));
    }
    assert(cs@.take(n as int) =~= cs@);
}

/// A byte string as text between double quotes, with the escapes of `byte_text`.
pub fn byte_str(bytes: &[u8]) -> (r: String)
    ensures
        r@ == seq!['"'] + bytes_text(bytes@) + seq!['"'],
{
    let mut out: Vec<char> = Vec::new();
    out.push('"');
    let n = bytes.len();
    for i in 0..n
        invariant
            n == bytes@.len(),
            out@ == seq!['"'] + bytes_text(bytes@.take(i as int)),
    {
        let b = bytes[i];
        assert(bytes@.take(i + 1).drop_last() =~= bytes@.take(i as int));
        let ghost before = out@;
        if b == 0 {
            out.push('\\');
            out.push('0');
        } else if b == 9 {
            out.push('\\');
            out.push('t');
        } else if b == 10 {
            out.push('\\');
            out.push('n');
        } else if b == 13 {
            out.push('\\');
            out.push('r');
        } else if b == 0x22 {
            out.push('\\');
            out.push('"');
        } else if 0x20 <= b && b < 0x7f {
            out.push(b as char);
        } else {
            out.push('\\');
            out.push('x');
            out.push(upper_digit(b / 16));
            out.push(upper_digit(b % 16));
        }
        assert(out@ =~= before + byte_text(b));
        assert(out@ =~= seq!['"'] + bytes_text(bytes@.take(i + 1)));
    }
    out.push('"');
    assert(bytes@.take(n as int) =~= bytes@);
    let mut s = String::new();
    push_chars(&mut s, &out);
    assert(s@ =~= seq!['"'] + bytes_text(bytes@) + seq!['"']);
    s
}

// ---------------------------------------------------------------------------
// Register states

/// The names under which the general registers are printed (the fourteenth, index 13, is
/// printed as `R12` as well).
pub open spec fn gpr_name(i: int) -> Seq<char> {
    if i == 0 { seq!['R', 'A', 'X'] } else if i == 1 { seq!['R', 'D', 'X'] } else if i == 2 { seq!['R', 'C', 'X'] }
    else if i == 3 { seq!['R', 'B', 'X'] } else if i == 4 { seq!['R', 'S', 'I'] } else if i == 5 { seq!['R', 'D', 'I'] }
    else if i == 6 { seq!['R', 'B', 'P'] } else if i == 7 { seq!['R', 'S', 'P'] } else if i == 8 { seq!['R', '8', ' '] }
    else if i == 9 { seq!['R', '9', ' '] } else if i == 10 { seq!['R', '1', '0'] } else if i == 11 { seq!['R', '1', '1'] }
    else if i == 12 { seq!['R', '1', '2'] } else if i == 13 { seq!['R', '1', '2'] } else if i == 14 { seq!['R', '1', '4'] }
    else { seq!['R', '1', '5'] }
}

/// The line of register `i`: a line break before every fourth register, a space before
/// the others, then the name, a colon and 16 hexadecimal digits.
pub open spec fn gpr_text(i: int, v: u64) -> Seq<char> {
    (if i % 4 == 0 { seq!['\n'] } else { seq![' '] }) + gpr_name(i) + seq![':'] + hex_digits(v as nat, 16)
}

/// The registers `0 .. n` of `regs` as text.
pub open spec fn gprs_text(regs: Seq<u64>, n: int) -> Seq<char>
    decreases n,
{
    if n <= 0 {
        Seq::empty()
    } else {
        gprs_text(regs, n - 1) + gpr_text(n - 1, regs[n - 1])
    }
}

/// A register state as text: `PC=` and the program counter, then the general registers.
pub open spec fn cpu_text(c: CpuState) -> Seq<char> {
    seq!['P', 'C', '='] + seq!['0', 'x'] + spec_hex(c.pc as nat) + gprs_text(c.gp_registers@, 16)
}

fn gpr_name_exec(i: usize) -> (r: &'static str)
    requires
        i < 16,
    ensures
        r@ == gpr_name(i as int),
{
    proof {
        reveal_strlit("RAX"); reveal_strlit("RDX"); reveal_strlit("RCX"); reveal_strlit("RBX");
        reveal_strlit("RSI"); reveal_strlit("RDI"); reveal_strlit("RBP"); reveal_strlit("RSP");
        reveal_strlit("R8 "); reveal_strlit("R9 "); reveal_strlit("R10"); reveal_strlit("R11");
        reveal_strlit("R12"); reveal_strlit("R14"); reveal_strlit("R15");
    }
    let r = if i == 0 { "RAX" } else if i == 1 { "RDX" } else if i == 2 { "RCX" } else if i == 3 { "RBX" }
        else if i == 4 { "RSI" } else if i == 5 { "RDI" } else if i == 6 { "RBP" } else if i == 7 { "RSP" }
        else if i == 8 { "R8 " } else if i == 9 { "R9 " } else if i == 10 { "R10" } else if i == 11 { "R11" }
        else if i == 12 { "R12" } else if i == 13 { "R12" } else if i == 14 { "R14" } else { "R15" };
    assert(r@ =~= gpr_name(i as int));
    r
}

impl CpuState {
    /// The register state as text (see `cpu_text`).
    pub fn to_string(&self) -> (r: String)
        ensures
            r@ == cpu_text(*self),
    {
        let mut s = String::new();
        proof { reveal_strlit("PC="); reveal_strlit("\n"); reveal_strlit(" "); reveal_strlit(":"); }
        push_str(&mut s, "PC=");
        let pc = u64_to_hex(self.pc);
        push_str(&mut s, pc.as_str());
        assert(s@ =~= seq!['P', 'C', '='] + seq!['0', 'x'] + spec_hex(self.pc as nat) + gprs_text(self.gp_registers@, 0));
        for i in 0..16usize
            invariant
                s@ == seq!['P', 'C', '='] + seq!['0', 'x'] + spec_hex(self.pc as nat) + gprs_text(self.gp_registers@, i as int),
        {
            let ghost before = s@;
            proof { reveal_strlit("\n"); reveal_strlit(" "); reveal_strlit(":"); }
            assert("\n"@ =~= seq!['\n']);
            assert(" "@ =~= seq![' ']);
            assert(":"@ =~= seq![':']);
            if i % 4 == 0 {
                push_str(&mut s, "\n");
            } else {
                push_str(&mut s, " ");
            }
            push_str(&mut s, gpr_name_exec(i));
            push_str(&mut s, ":");
            let r = self.gp_registers[i];
            assert(r == self.gp_registers@[i as int]);
            let v = u64_to_hex16(r);
            push_str(&mut s, v.as_str());
            assert(s@ =~= before + gpr_text(i as int, self.gp_registers@[i as int]));
        }
        s
    }
}

// ---------------------------------------------------------------------------
// Type layouts

/// What a dump of the type that `tr` names writes: the dump of the type (one level of
/// `fuel` used), `?` for an unfilled slot, `...` without fuel.
pub open spec fn ref_dump(p: DebugPool, tr: TypeRef, ofs: u64, fuel: nat) -> Seq<char>
    decreases fuel, 0nat, 0nat,
{
    if fuel == 0 {
        seq!['.', '.', '.']
    } else {
        match p.spec_type(tr) {
            Some(t) => type_dump(p, t, ofs, (fuel - 1) as nat),
            None => seq!['?'],
        }
    }
}

/// The fields `fs`, each as ` name: ` and the dump of its type at its offset, then `,`.
pub open spec fn fields_dump(p: DebugPool, fs: Seq<CompositeField>, ofs: u64, fuel: nat) -> Seq<char>
    decreases fuel, 1nat, fs.len(),
{
    if fs.len() == 0 {
        Seq::empty()
    } else {
        fields_dump(p, fs.drop_last(), ofs, fuel) + seq![' '] + fs.last().name@ + seq![':', ' ']
            + ref_dump(p, fs.last().ty, wrap_add(ofs, fs.last().offset), fuel) + seq![',']
    }
}

/// The parents `ps`, each as a space, the dump of its type at its offset, then `;`.
pub open spec fn parents_dump(p: DebugPool, ps: Seq<(u64, TypeRef)>, ofs: u64, fuel: nat) -> Seq<char>
    decreases fuel, 1nat, ps.len(),
{
    if ps.len() == 0 {
        Seq::empty()
    } else {
        parents_dump(p, ps.drop_last(), ofs, fuel) + seq![' '] + ref_dump(p, ps.last().1, wrap_add(ofs, ps.last().0), fuel)
            + seq![';']
    }
}

/// The variants `vs`, each as ` #i: {`, its fields, then `},`.
pub open spec fn variants_dump(p: DebugPool, vs: Seq<EnumVariant>, ofs: u64, fuel: nat) -> Seq<char>
    decreases fuel, 2nat, vs.len(),
{
    if vs.len() == 0 {
        Seq::empty()
    } else {
        variants_dump(p, vs.drop_last(), ofs, fuel) + seq![' ', '#'] + spec_decimal((vs.len() - 1) as nat)
            + seq![':', ' ', '{'] + fields_dump(p, vs.last().fields@, ofs, fuel) + seq!['}', ',']
    }
}

/// The types declared inside a type, each as ` type name = ` and its rendering, then `;`.
pub open spec fn subtypes_dump(p: DebugPool, sts: Seq<(String, TypeRef)>) -> Seq<char>
    decreases sts.len(),
{
    if sts.len() == 0 {
        Seq::empty()
    } else {
        subtypes_dump(p, sts.drop_last()) + seq![' ', 't', 'y', 'p', 'e', ' '] + sts.last().0@ + seq![' ', '=', ' ']
            + match p.spec_type(sts.last().1) {
                Some(t) => type_text(p, t, p.types@.len()),
                None => seq!['?'],
            } + seq![';']
    }
}

/// The immediate fields of a type at offset `ofs` (all its direct data): a struct as its
/// name and, between braces, its declared types, parents and fields; a union and a tagged
/// union likewise (with `union ` or `enum ` before the name, and a tagged union's variants
/// after its fields); an alias as its target; anything else as `@`, the offset in
/// hexadecimal, `: ` and its rendering.
pub open spec fn type_dump(p: DebugPool, t: Type, ofs: u64, fuel: nat) -> Seq<char>
    decreases fuel, 3nat, 0nat,
{
    match t {
        Type::Alias(tr) => ref_dump(p, tr, ofs, fuel),
        Type::Struct(ct) => ct.name@ + seq![' ', '{'] + subtypes_dump(p, ct.sub_types@) + parents_dump(p, ct.parents@, ofs, fuel)
            + fields_dump(p, ct.fields@, ofs, fuel) + seq![' ', '}'],
        Type::Union(u) => seq!['u', 'n', 'i', 'o', 'n', ' '] + u.name@ + seq![' ', '{'] + fields_dump(p, u.fields@, ofs, fuel)
            + seq![' ', '}'],
        Type::Varianted(e) => seq!['e', 'n', 'u', 'm', ' '] + e.outer.name@ + seq![' ', '{']
            + fields_dump(p, e.outer.fields@, ofs, fuel) + variants_dump(p, e.variants@, ofs, fuel) + seq![' ', '}'],
        _ => seq!['@', '0', 'x'] + spec_hex(ofs as nat) + seq![':', ' '] + type_text(p, t, p.types@.len()),
    }
}

fn push_lit(s: &mut String, cs: &[char])
    ensures
        final(s)@ == old(s)@ + cs@,
{
    let ghost s0 = s@;
    let n = cs.len();
    for i in 0..n
        invariant
            n == cs@.len(),
            s@ == s0 + cs@.take(i as int),
    {
        push_char(s, cs[i]);
        assert(s@ =~= s0 + cs@.take(i + 1));
    }
    assert(cs@.take(n as int) =~= cs@);
}

fn ref_dump_exec(debug: &DebugPool, tr: &TypeRef, ofs: u64, fuel: usize, out: &mut String)
    ensures
        final(out)@ == old(out)@ + ref_dump(*debug, *tr, ofs, fuel as nat),
    decreases fuel, 0nat, 0nat,
{
    if fuel == 0 {
        push_lit(out, &['.', '.', '.']);
        assert(['.', '.', '.']@ =~= seq!['.', '.', '.']);
    } else {
        match debug.try_get_type(tr) {
            Some(t) => type_dump_exec(debug, t, ofs, fuel - 1, out),
            None => {
                push_lit(out, &['?']);
                assert(['?']@ =~= seq!['?']);
            },
        }
    }
}

fn fields_dump_exec(debug: &DebugPool, fs: &[CompositeField], ofs: u64, fuel: usize, out: &mut String)
    ensures
        final(out)@ == old(out)@ + fields_dump(*debug, fs@, ofs, fuel as nat),
    decreases fuel, 1nat, fs@.len(),
{
    let ghost s0 = out@;
    let n = fs.len();
    for i in 0..n
        invariant
            n == fs@.len(),
            out@ == s0 + fields_dump(*debug, fs@.take(i as int), ofs, fuel as nat),
    {
        let ghost before = out@;
        assert(fs@.take(i + 1).drop_last() =~= fs@.take(i as int));
        let f = &fs[i];
        push_lit(out, &[' ']);
        push_str(out, f.name.as_str());
        push_lit(out, &[':', ' ']);
        ref_dump_exec(debug, &f.ty, f.offset.wrapping_add(ofs), fuel, out);
        push_lit(out, &[',']);
        assert([' ']@ =~= seq![' '] && [':', ' ']@ =~= seq![':', ' '] && [',']@ =~= seq![',']);
        assert(out@ =~= s0 + fields_dump(*debug, fs@.take(i + 1), ofs, fuel as nat));
    }
    assert(fs@.take(n as int) =~= fs@);
}

fn parents_dump_exec(debug: &DebugPool, ps: &[(u64, TypeRef)], ofs: u64, fuel: usize, out: &mut String)
    ensures
        final(out)@ == old(out)@ + parents_dump(*debug, ps@, ofs, fuel as nat),
    decreases fuel, 1nat, ps@.len(),
{
    let ghost s0 = out@;
    let n = ps.len();
    for i in 0..n
        invariant
            n == ps@.len(),
            out@ == s0 + parents_dump(*debug, ps@.take(i as int), ofs, fuel as nat),
    {
        assert(ps@.take(i + 1).drop_last() =~= ps@.take(i as int));
        let (o, tr) = ps[i];
        push_lit(out, &[' ']);
        ref_dump_exec(debug, &tr, o.wrapping_add(ofs), fuel, out);
        push_lit(out, &[';']);
        assert([' ']@ =~= seq![' '] && [';']@ =~= seq![';']);
        assert(out@ =~= s0 + parents_dump(*debug, ps@.take(i + 1), ofs, fuel as nat));
    }
    assert(ps@.take(n as int) =~= ps@);
}

fn variants_dump_exec(debug: &DebugPool, vs: &[EnumVariant], ofs: u64, fuel: usize, out: &mut String)
    ensures
        final(out)@ == old(out)@ + variants_dump(*debug, vs@, ofs, fuel as nat),
    decreases fuel, 2nat, vs@.len(),
{
    let ghost s0 = out@;
    let n = vs.len();
    for i in 0..n
        invariant
            n == vs@.len(),
            out@ == s0 + variants_dump(*debug, vs@.take(i as int), ofs, fuel as nat),
    {
        assert(vs@.take(i + 1).drop_last() =~= vs@.take(i as int));
        push_lit(out, &[' ', '#']);
        let d = u64_to_decimal(i as u64);
        push_str(out, d.as_str());
        push_lit(out, &[':', ' ', '{']);
        fields_dump_exec(debug, vs[i].fields.as_slice(), ofs, fuel, out);
        push_lit(out, &['}', ',']);
        assert([' ', '#']@ =~= seq![' ', '#'] && [':', ' ', '{']@ =~= seq![':', ' ', '{'] && ['}', ',']@ =~= seq!['}', ',']);
        assert(out@ =~= s0 + variants_dump(*debug, vs@.take(i + 1), ofs, fuel as nat));
    }
    assert(vs@.take(n as int) =~= vs@);
}

fn subtypes_dump_exec(debug: &DebugPool, sts: &[(String, TypeRef)], out: &mut String)
    ensures
        final(out)@ == old(out)@ + subtypes_dump(*debug, sts@),
{
    let ghost s0 = out@;
    let n = sts.len();
    for i in 0..n
        invariant
            n == sts@.len(),
            out@ == s0 + subtypes_dump(*debug, sts@.take(i as int)),
    {
        assert(sts@.take(i + 1).drop_last() =~= sts@.take(i as int));
        push_lit(out, &[' ', 't', 'y', 'p', 'e', ' ']);
        push_str(out, sts[i].0.as_str());
        push_lit(out, &[' ', '=', ' ']);
        let t = debug.fmt_type_ref(&sts[i].1);
        push_str(out, t.as_str());
        push_lit(out, &[';']);
        assert([' ', 't', 'y', 'p', 'e', ' ']@ =~= seq![' ', 't', 'y', 'p', 'e', ' '] && [' ', '=', ' ']@ =~= seq![' ', '=', ' ']
            && [';']@ =~= seq![';']);
        assert(out@ =~= s0 + subtypes_dump(*debug, sts@.take(i + 1)));
    }
    assert(sts@.take(n as int) =~= sts@);
}

fn type_dump_exec(debug: &DebugPool, ty: &Type, ofs: u64, fuel: usize, out: &mut String)
    ensures
        final(out)@ == old(out)@ + type_dump(*debug, *ty, ofs, fuel as nat),
    decreases fuel, 3nat, 0nat,
{
    let ghost s0 = out@;
    match ty {
        Type::Alias(tr) => ref_dump_exec(debug, tr, ofs, fuel, out),
        Type::Struct(ct) => {
            push_str(out, ct.name.as_str());
            push_lit(out, &[' ', '{']);
            subtypes_dump_exec(debug, ct.sub_types.as_slice(), out);
            parents_dump_exec(debug, ct.parents.as_slice(), ofs, fuel, out);
            fields_dump_exec(debug, ct.fields.as_slice(), ofs, fuel, out);
            push_lit(out, &[' ', '}']);
            assert([' ', '{']@ =~= seq![' ', '{'] && [' ', '}']@ =~= seq![' ', '}']);
            assert(out@ =~= s0 + type_dump(*debug, *ty, ofs, fuel as nat));
        },
        Type::Union(u) => {
            push_lit(out, &['u', 'n', 'i', 'o', 'n', ' ']);
            push_str(out, u.name.as_str());
            push_lit(out, &[' ', '{']);
            fields_dump_exec(debug, u.fields.as_slice(), ofs, fuel, out);
            push_lit(out, &[' ', '}']);
            assert(['u', 'n', 'i', 'o', 'n', ' ']@ =~= seq!['u', 'n', 'i', 'o', 'n', ' ']
                && [' ', '{']@ =~= seq![' ', '{'] && [' ', '}']@ =~= seq![' ', '}']);
            assert(out@ =~= s0 + type_dump(*debug, *ty, ofs, fuel as nat));
        },
        Type::Varianted(e) => {
            push_lit(out, &['e', 'n', 'u', 'm', ' ']);
            push_str(out, e.outer.name.as_str());
            push_lit(out, &[' ', '{']);
            fields_dump_exec(debug, e.outer.fields.as_slice(), ofs, fuel, out);
            variants_dump_exec(debug, e.variants.as_slice(), ofs, fuel, out);
            push_lit(out, &[' ', '}']);
            assert(['e', 'n', 'u', 'm', ' ']@ =~= seq!['e', 'n', 'u', 'm', ' ']
                && [' ', '{']@ =~= seq![' ', '{'] && [' ', '}']@ =~= seq![' ', '}']);
            assert(out@ =~= s0 + type_dump(*debug, *ty, ofs, fuel as nat));
        },
        _ => {
            push_lit(out, &['@']);
            let h = u64_to_hex(ofs);
            push_str(out, h.as_str());
            push_lit(out, &[':', ' ']);
            let t = debug.fmt_type(ty);
            push_str(out, t.as_str());
            assert(['@']@ =~= seq!['@'] && [':', ' ']@ =~= seq![':', ' ']);
            assert(out@ =~= s0 + type_dump(*debug, *ty, ofs, fuel as nat));
        },
    }
}

/// Dump the immediate fields of a type (all direct data) at offset `ofs`, as
/// `type_dump` describes, following as many references to other types as the pool has
/// slots.
pub fn dump_type_fields(debug: &DebugPool, ty: &Type, ofs: u64) -> (r: String)
    ensures
        r@ == type_dump(*debug, *ty, ofs, debug.types@.len()),
{
    let mut out = String::new();
    type_dump_exec(debug, ty, ofs, debug.types.len(), &mut out);
    out
}

} // verus!
