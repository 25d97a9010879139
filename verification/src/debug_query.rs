//! Questions asked of a loaded debug pool: sizes and names of types, symbols at
//! addresses, and the variables of the function running at a program point.
use vstd::prelude::*;
use crate::debug_info::{DebugPool, FunctionRecord, PcRanges, PointerClass, Symbol, Type, TypeRef, VariablePosition, VariableRange};
use crate::named::{index_of_name, lemma_index_of_name, position_of_name};
use crate::text::{push_str, spec_decimal, str_eq, u64_to_decimal};
use crate::dwarf::{DwarfError, Tables, UnitEntries, tables, unit_rel};
use crate::frames::{FrameRow, row_moved};

verus! {

// ---------------------------------------------------------------------------
// Sizes

/// The size in bytes of a value of type `t`, following at most `fuel` references to
/// other types; `None` for an enumeration (whose size is not recorded), a reference to an
/// unfilled slot, a chain longer than `fuel`, or an array whose size overflows.
pub open spec fn type_size(p: DebugPool, t: Type, fuel: nat) -> Option<usize>
    decreases fuel,
{
    match t {
        Type::Struct(ct) => Some(ct.size),
        Type::Union(ct) => Some(ct.size),
        Type::Varianted(e) => Some(e.outer.size),
        Type::Primtive(pt) => Some((pt.bits / 8) as usize),
        Type::Pointer(_, _) => Some(8),
        Type::Enum(_) => None,
        Type::Alias(tr) => if fuel == 0 {
            None
        } else {
            match p.spec_type(tr) {
                Some(t2) => type_size(p, t2, (fuel - 1) as nat),
                None => None,
            }
        },
        Type::Array(tr, n) => if fuel == 0 {
            None
        } else {
            match p.spec_type(tr) {
                Some(t2) => match type_size(p, t2, (fuel - 1) as nat) {
                    Some(s) => if n * s <= usize::MAX { Some((n * s) as usize) } else { None },
                    None => None,
                },
                None => None,
            }
        },
    }
}

// ---------------------------------------------------------------------------
// Names

/// How a pointer of class `c` is written before its target.
pub open spec fn pointer_text(c: PointerClass) -> Seq<char> {
    match c {
        PointerClass::Bare => seq!['*'],
        PointerClass::Reference => seq!['&'],
        PointerClass::RValueReference => seq!['&', '&'],
    }
}

/// A human-readable rendering of type `t`: the name of a composite type or enumeration,
/// `prim` and the bit width of a primitive, `*`, `&` or `&&` before a pointer's target,
/// `=` before an alias's target, and `[target; count]` for an array. A target in an
/// unfilled slot is written `?`, one beyond `fuel` references `...`.
pub open spec fn type_text(p: DebugPool, t: Type, fuel: nat) -> Seq<char>
    decreases fuel,
{
    match t {
        Type::Struct(ct) => ct.name@,
        Type::Union(ct) => ct.name@,
        Type::Varianted(e) => e.outer.name@,
        Type::Primtive(pt) => seq!['p', 'r', 'i', 'm'] + spec_decimal(pt.bits as nat),
        Type::Enum(n) => n@,
        Type::Pointer(tr, c) => pointer_text(c) + if fuel == 0 {
            seq!['.', '.', '.']
        } else {
            match p.spec_type(tr) {
                Some(t2) => type_text(p, t2, (fuel - 1) as nat),
                None => seq!['?'],
            }
        },
        Type::Alias(tr) => seq!['='] + if fuel == 0 {
            seq!['.', '.', '.']
        } else {
            match p.spec_type(tr) {
                Some(t2) => type_text(p, t2, (fuel - 1) as nat),
                None => seq!['?'],
            }
        },
        Type::Array(tr, n) => seq!['['] + (if fuel == 0 {
            seq!['.', '.', '.']
        } else {
            match p.spec_type(tr) {
                Some(t2) => type_text(p, t2, (fuel - 1) as nat),
                None => seq!['?'],
            }
        }) + seq![';', ' '] + spec_decimal(n as nat) + seq![']'],
    }
}

/// The name under which a type can be looked up: that of a composite type, an
/// enumeration or a primitive.
pub open spec fn lookup_name(t: Type) -> Option<Seq<char>> {
    match t {
        Type::Struct(ct) => Some(ct.name@),
        Type::Union(ct) => Some(ct.name@),
        Type::Varianted(e) => Some(e.outer.name@),
        Type::Enum(n) => Some(n@),
        Type::Primtive(pt) => Some(pt.name@),
        _ => None,
    }
}

/// A filled slot whose type is named `name`.
pub open spec fn slot_named(slot: Option<Type>, name: Seq<char>) -> bool {
    slot matches Some(t) && lookup_name(t) == Some(name)
}

/// The index of the first filled slot whose type is named `name`.
pub open spec fn first_named(ts: Seq<Option<Type>>, name: Seq<char>) -> Option<int>
    decreases ts.len(),
{
    if ts.len() == 0 {
        None
    } else if slot_named(ts[0], name) {
        Some(0)
    } else {
        match first_named(ts.drop_first(), name) {
            Some(i) => Some(i + 1),
            None => None,
        }
    }
}

proof fn lemma_first_named_found(ts: Seq<Option<Type>>, name: Seq<char>, i: int)
    requires
        0 <= i < ts.len(),
        slot_named(ts[i], name),
        forall|j: int| 0 <= j < i ==> !#[trigger] slot_named(ts[j], name),
    ensures
        first_named(ts, name) == Some(i),
    decreases ts.len(),
{
    if i > 0 {
        lemma_first_named_found(ts.drop_first(), name, i - 1);
    }
}

proof fn lemma_first_named_absent(ts: Seq<Option<Type>>, name: Seq<char>)
    requires
        forall|j: int| 0 <= j < ts.len() ==> !#[trigger] slot_named(ts[j], name),
    ensures
        first_named(ts, name) is None,
    decreases ts.len(),
{
    if ts.len() > 0 {
        lemma_first_named_absent(ts.drop_first(), name);
    }
}

fn lookup_name_exec(t: &Type) -> (r: Option<&str>)
    ensures
        match lookup_name(*t) {
            Some(n) => r matches Some(x) && x@ == n,
            None => r is None,
        },
{
    match t {
        Type::Struct(ct) => Some(ct.name.as_str()),
        Type::Union(ct) => Some(ct.name.as_str()),
        Type::Varianted(e) => Some(e.outer.name.as_str()),
        Type::Enum(n) => Some(n.as_str()),
        Type::Primtive(pt) => Some(pt.name.as_str()),
        _ => None,
    }
}

// ---------------------------------------------------------------------------
// Symbols

/// `s` covers address `addr`.
pub open spec fn symbol_covers(s: Symbol, addr: u64) -> bool {
    s.start <= addr && addr < s.start + s.size
}

/// The index of the first symbol covering `addr`.
pub open spec fn first_symbol_at(ss: Seq<Symbol>, addr: u64) -> Option<int>
    decreases ss.len(),
{
    if ss.len() == 0 {
        None
    } else if symbol_covers(ss[0], addr) {
        Some(0)
    } else {
        match first_symbol_at(ss.drop_first(), addr) {
            Some(i) => Some(i + 1),
            None => None,
        }
    }
}

proof fn lemma_first_symbol_found(ss: Seq<Symbol>, addr: u64, i: int)
    requires
        0 <= i < ss.len(),
        symbol_covers(ss[i], addr),
        forall|j: int| 0 <= j < i ==> !symbol_covers(ss[j], addr),
    ensures
        first_symbol_at(ss, addr) == Some(i),
    decreases ss.len(),
{
    if i > 0 {
        lemma_first_symbol_found(ss.drop_first(), addr, i - 1);
    }
}

proof fn lemma_first_symbol_absent(ss: Seq<Symbol>, addr: u64)
    requires
        forall|j: int| 0 <= j < ss.len() ==> !symbol_covers(ss[j], addr),
    ensures
        first_symbol_at(ss, addr) is None,
    decreases ss.len(),
{
    if ss.len() > 0 {
        lemma_first_symbol_absent(ss.drop_first(), addr);
    }
}

// ---------------------------------------------------------------------------
// Variables

/// The index of the first function whose code covers `pc`.
pub open spec fn first_function_at(fs: Seq<(String, FunctionRecord)>, pc: u64) -> Option<int>
    decreases fs.len(),
{
    if fs.len() == 0 {
        None
    } else if fs[0].1.pc_range.spec_contains(pc) {
        Some(0)
    } else {
        match first_function_at(fs.drop_first(), pc) {
            Some(i) => Some(i + 1),
            None => None,
        }
    }
}

proof fn lemma_first_function_found(fs: Seq<(String, FunctionRecord)>, pc: u64, i: int)
    requires
        0 <= i < fs.len(),
        fs[i].1.pc_range.spec_contains(pc),
        forall|j: int| 0 <= j < i ==> !fs[j].1.pc_range.spec_contains(pc),
    ensures
        first_function_at(fs, pc) == Some(i),
    decreases fs.len(),
{
    if i > 0 {
        lemma_first_function_found(fs.drop_first(), pc, i - 1);
    }
}

proof fn lemma_first_function_absent(fs: Seq<(String, FunctionRecord)>, pc: u64)
    requires
        forall|j: int| 0 <= j < fs.len() ==> !fs[j].1.pc_range.spec_contains(pc),
    ensures
        first_function_at(fs, pc) is None,
    decreases fs.len(),
{
    if fs.len() > 0 {
        lemma_first_function_absent(fs.drop_first(), pc);
    }
}

/// The index of the first range of a variable that covers `pc`.
pub open spec fn first_range_at(rs: Seq<VariableRange>, pc: u64) -> Option<int>
    decreases rs.len(),
{
    if rs.len() == 0 {
        None
    } else if rs[0].pc_range.spec_contains(pc) {
        Some(0)
    } else {
        match first_range_at(rs.drop_first(), pc) {
            Some(i) => Some(i + 1),
            None => None,
        }
    }
}

proof fn lemma_first_range_found(rs: Seq<VariableRange>, pc: u64, i: int)
    requires
        0 <= i < rs.len(),
        rs[i].pc_range.spec_contains(pc),
        forall|j: int| 0 <= j < i ==> !rs[j].pc_range.spec_contains(pc),
    ensures
        first_range_at(rs, pc) == Some(i),
    decreases rs.len(),
{
    if i > 0 {
        lemma_first_range_found(rs.drop_first(), pc, i - 1);
    }
}

proof fn lemma_first_range_absent(rs: Seq<VariableRange>, pc: u64)
    requires
        forall|j: int| 0 <= j < rs.len() ==> !rs[j].pc_range.spec_contains(pc),
    ensures
        first_range_at(rs, pc) is None,
    decreases rs.len(),
{
    if rs.len() > 0 {
        lemma_first_range_absent(rs.drop_first(), pc);
    }
}

/// Where variable `name` of the function running at `pc` is stored at that point: the
/// first function covering `pc`, its variable of that name and the first of its ranges
/// covering `pc`. The result is the variable's position, the function's frame base and
/// the variable's type.
pub open spec fn variable_at(p: DebugPool, pc: u64, name: Seq<char>) -> Option<(VariablePosition, VariablePosition, TypeRef)> {
    match first_function_at(p.functions@, pc) {
        None => None,
        Some(fi) => {
            let f = p.functions@[fi].1;
            match index_of_name(f.variables@, name) {
                None => None,
                Some(vi) => {
                    let v = f.variables@[vi].1;
                    match first_range_at(v.ranges@, pc) {
                        None => None,
                        Some(ri) => Some((v.ranges@[ri].position, f.frame_base, v.ty)),
                    }
                },
            }
        },
    }
}

/// The slots of the type table that no DIE filled, in order.
pub open spec fn unfilled(ts: Seq<Option<Type>>) -> Seq<TypeRef>
    decreases ts.len(),
{
    if ts.len() == 0 {
        Seq::empty()
    } else {
        unfilled(ts.drop_last()) + if ts.last() is None { seq![TypeRef((ts.len() - 1) as usize)] } else { Seq::empty() }
    }
}


// ---------------------------------------------------------------------------
// Virtual tables

/// An ASCII decimal digit
pub open spec fn is_digit(c: char) -> bool {
    '0' <= c && c <= '9'
}

/// The number of decimal digits at the start of `s`.
pub open spec fn digit_run(s: Seq<char>) -> nat
    decreases s.len(),
{
    if s.len() > 0 && is_digit(s[0]) {
        1 + digit_run(s.drop_first())
    } else {
        0
    }
}

/// The number that the decimal digits `s` write.
pub open spec fn digits_value(s: Seq<char>) -> nat
    decreases s.len(),
{
    if s.len() == 0 {
        0
    } else {
        digits_value(s.drop_last()) * 10 + ((s.last() as int) - ('0' as int)) as nat
    }
}

/// The identifiers of a sequence of length-prefixed names (`3foo6barbaz`), as the Itanium
/// C++ ABI writes them; `None` when `s` is not such a sequence.
pub open spec fn source_names(s: Seq<char>) -> Option<Seq<Seq<char>>>
    decreases s.len(),
{
    if s.len() == 0 {
        Some(Seq::empty())
    } else {
        let k = digit_run(s);
        let n = digits_value(s.take(k as int));
        if k == 0 || n == 0 || k + n > s.len() {
            None
        } else {
            match source_names(s.skip((k + n) as int)) {
                Some(rest) => Some(seq![s.subrange(k as int, (k + n) as int)] + rest),
                None => None,
            }
        }
    }
}

/// The scopes of the class whose virtual table a symbol names: the symbol is `_ZTV`
/// followed by `N` (`St`)? name* `E`, by `St` name, or by one name, `St` standing for
/// the namespace `std`.
pub open spec fn vtable_parts(s: Seq<char>) -> Option<Seq<Seq<char>>> {
    let std_scope = seq!['s', 't', 'd'];
    if !(s.len() >= 4 && s[0] == '_' && s[1] == 'Z' && s[2] == 'T' && s[3] == 'V') {
        None
    } else {
        let b = s.skip(4);
        if b.len() >= 2 && b[0] == 'N' && b.last() == 'E' {
            let inner = b.subrange(1, b.len() - 1);
            if inner.len() >= 2 && inner[0] == 'S' && inner[1] == 't' {
                match source_names(inner.skip(2)) {
                    Some(cs) => Some(seq![std_scope] + cs),
                    None => None,
                }
            } else {
                match source_names(inner) {
                    Some(cs) => if cs.len() >= 1 { Some(cs) } else { None },
                    None => None,
                }
            }
        } else if b.len() >= 2 && b[0] == 'S' && b[1] == 't' {
            match source_names(b.skip(2)) {
                Some(cs) => if cs.len() == 1 { Some(seq![std_scope] + cs) } else { None },
                None => None,
            }
        } else {
            match source_names(b) {
                Some(cs) => if cs.len() == 1 { Some(cs) } else { None },
                None => None,
            }
        }
    }
}

/// Scopes joined with `::`.
pub open spec fn join_scoped(cs: Seq<Seq<char>>) -> Seq<char>
    decreases cs.len(),
{
    if cs.len() == 0 {
        Seq::empty()
    } else if cs.len() == 1 {
        cs[0]
    } else {
        join_scoped(cs.drop_last()) + seq![':', ':'] + cs.last()
    }
}

/// The name of the class whose virtual table symbol `s` names.
pub open spec fn vtable_class(s: Seq<char>) -> Option<Seq<char>> {
    match vtable_parts(s) {
        Some(cs) => Some(join_scoped(cs)),
        None => None,
    }
}

proof fn lemma_digit_run(s: Seq<char>, j: int)
    requires
        0 <= j <= s.len(),
        forall|i: int| 0 <= i < j ==> is_digit(#[trigger] s[i]),
        j == s.len() || !is_digit(s[j]),
    ensures
        digit_run(s) == j,
    decreases j,
{
    if j > 0 {
        lemma_digit_run(s.drop_first(), j - 1);
    }
}

proof fn lemma_digit_run_len(s: Seq<char>)
    ensures
        digit_run(s) <= s.len(),
    decreases s.len(),
{
    if s.len() > 0 {
        lemma_digit_run_len(s.drop_first());
    }
}

proof fn lemma_digits_value_grows(s: Seq<char>, j: int, k: int)
    requires
        0 <= j <= k <= s.len(),
        forall|i: int| 0 <= i < k ==> is_digit(#[trigger] s[i]),
    ensures
        digits_value(s.take(j)) <= digits_value(s.take(k)),
    decreases k - j,
{
    if j < k {
        lemma_digits_value_grows(s, j + 1, k);
        assert(s.take(j + 1).drop_last() =~= s.take(j));
    }
}

proof fn lemma_source_names_len(s: Seq<char>)
    ensures
        source_names(s) matches Some(cs) ==> cs.len() <= s.len(),
    decreases s.len(),
{
    if s.len() > 0 {
        let k = digit_run(s);
        let n = digits_value(s.take(k as int));
        if !(k == 0 || n == 0 || k + n > s.len()) {
            lemma_source_names_len(s.skip((k + n) as int));
        }
    }
}

/// The characters of `s`.
fn chars_of(s: &str) -> (r: Vec<char>)
    ensures
        r@ == s@,
{
    let n = s.unicode_len();
    let mut r: Vec<char> = Vec::new();
    for i in 0..n
        invariant
            n == s@.len(),
            r@ == s@.take(i as int),
    {
        r.push(s.get_char(i));
        assert(r@ =~= s@.take(i + 1));
    }
    assert(s@.take(n as int) =~= s@);
    r
}

/// The length of the run of digits at `pos` and the number it writes, capped at `cap`.
fn read_length(cs: &Vec<char>, pos: usize, cap: u128) -> (r: (usize, u128))
    requires
        pos <= cs@.len(),
        cap <= 0x1_0000_0000_0000_0000,
    ensures
        r.0 == digit_run(cs@.skip(pos as int)),
        r.1 == if digits_value(cs@.skip(pos as int).take(r.0 as int)) < cap {
            digits_value(cs@.skip(pos as int).take(r.0 as int)) as int
        } else {
            cap as int
        },
{
    let ghost t = cs@.skip(pos as int);
    let n = cs.len();
    let mut j: usize = 0;
    let mut v: u128 = 0;
    while pos + j < n && '0' <= cs[pos + j] && cs[pos + j] <= '9'
        invariant
            pos <= n == cs@.len(),
            cap <= 0x1_0000_0000_0000_0000,
            t == cs@.skip(pos as int),
            j <= t.len(),
            forall|i: int| 0 <= i < j ==> is_digit(#[trigger] t[i]),
            v == if digits_value(t.take(j as int)) < cap { digits_value(t.take(j as int)) as int } else { cap as int },
        decreases n - pos - j,
    {
        let c = cs[pos + j];
        assert(t[j as int] == c);
        assert(t.take(j + 1).drop_last() =~= t.take(j as int));
        assert(t.take(j + 1).last() == c);
        let d = (c as u32 - '0' as u32) as u128;
        proof {
            lemma_digits_value_grows(t, j as int, j + 1);
        }
        if v < cap {
            assert(digits_value(t.take(j + 1)) == digits_value(t.take(j as int)) * 10 + d);
            if v >= cap / 10 + 1 {
                assert(digits_value(t.take(j + 1)) >= cap) by (nonlinear_arith)
                    requires
                        digits_value(t.take(j + 1)) == v * 10 + d,
                        v >= cap / 10 + 1,
                        d >= 0;
                v = cap;
            } else {
                assert(v * 10 + d <= u128::MAX) by (nonlinear_arith)
                    requires
                        v <= cap / 10,
                        d <= 9,
                        cap <= 0x1_0000_0000_0000_0000;
                let w = v * 10 + d;
                v = if w < cap { w } else { cap };
            }
        }
        j = j + 1;
    }
    proof {
        lemma_digit_run(t, j as int);
    }
    (j, v)
}

/// The identifiers of the length-prefixed names in `s` from `pos` on, appended to `out`.
fn read_source_names(s: &str, cs: &Vec<char>, pos: usize, out: &mut Vec<String>) -> (ok: bool)
    requires
        cs@ == s@,
        pos <= cs@.len(),
    ensures
        match source_names(s@.skip(pos as int)) {
            Some(names) => ok && final(out)@.len() == old(out)@.len() + names.len()
                && (forall|i: int| 0 <= i < old(out)@.len() ==> #[trigger] final(out)@[i] == old(out)@[i])
                && (forall|i: int| 0 <= i < names.len() ==> #[trigger] final(out)@[old(out)@.len() + i]@ == names[i]),
            None => !ok,
        },
{
    let n = cs.len();
    let mut p = pos;
    let ghost start = old(out)@;
    let ghost mut acc: Seq<Seq<char>> = Seq::empty();
    assert(s@.skip(pos as int).skip(0) =~= s@.skip(pos as int));
    while p < n
        invariant
            n == cs@.len() == s@.len(),
            cs@ == s@,
            pos <= p <= n,
            out@.len() == start.len() + acc.len(),
            forall|i: int| 0 <= i < start.len() ==> #[trigger] out@[i] == start[i],
            forall|i: int| 0 <= i < acc.len() ==> #[trigger] out@[start.len() + i]@ == acc[i],
            source_names(s@.skip(pos as int)) == match source_names(s@.skip(p as int)) {
                Some(rest) => Some(acc + rest),
                None => None,
            },
        decreases n - p,
    {
        let ghost t = s@.skip(p as int);
        let (k, v) = read_length(cs, p, (n - p) as u128 + 1);
        proof { lemma_digit_run_len(t); }
        if k == 0 || v == 0 || v > (n - p - k) as u128 {
            assert(source_names(t) is None);
            return false;
        }
        let len = v as usize;
        let name = s.substring_char(p + k, p + k + len);
        assert(name@ == t.subrange(k as int, (k + len) as int));
        assert(t.skip((k + len) as int) =~= s@.skip((p + k + len) as int));
        let ghost c = t.subrange(k as int, (k + len) as int);
        let ghost acc0 = acc;
        assert forall|rest: Seq<Seq<char>>| #[trigger] (acc0 + (seq![c] + rest)) == acc0.push(c) + rest by {
            assert(acc0 + (seq![c] + rest) =~= acc0.push(c) + rest);
        }
        proof {
            acc = acc0.push(c);
        }
        out.push(crate::text::str_to_string(name));
        p = p + k + len;
    }
    assert(s@.skip(p as int) =~= Seq::<char>::empty());
    assert(acc + Seq::<Seq<char>>::empty() =~= acc);
    true
}


fn join_parts(parts: &Vec<String>, Ghost(cs): Ghost<Seq<Seq<char>>>) -> (r: String)
    requires
        parts@.len() == cs.len(),
        forall|i: int| 0 <= i < cs.len() ==> #[trigger] parts@[i]@ == cs[i],
    ensures
        r@ == join_scoped(cs),
{
    let mut s = String::new();
    let n = parts.len();
    for i in 0..n
        invariant
            n == cs.len() == parts@.len(),
            forall|i: int| 0 <= i < cs.len() ==> #[trigger] parts@[i]@ == cs[i],
            s@ == join_scoped(cs.take(i as int)),
    {
        assert(cs.take(i + 1).drop_last() =~= cs.take(i as int));
        if i > 0 {
            proof { reveal_strlit("::"); }
            push_str(&mut s, "::");
        } else {
            assert(s@ =~= Seq::<char>::empty());
        }
        push_str(&mut s, parts[i].as_str());
        assert(s@ =~= join_scoped(cs.take(i + 1)));
    }
    assert(cs.take(n as int) =~= cs);
    s
}

/// The name of the class whose virtual table symbol `sym` names (see `vtable_class`).
pub fn vtable_class_name(sym: &str) -> (r: Option<String>)
    ensures
        match vtable_class(sym@) {
            Some(c) => r matches Some(x) && x@ == c,
            None => r is None,
        },
{
    let cs = chars_of(sym);
    let n = cs.len();
    if !(n >= 4 && cs[0] == '_' && cs[1] == 'Z' && cs[2] == 'T' && cs[3] == 'V') {
        return None;
    }
    let ghost b = sym@.skip(4);
    let ghost std_scope = seq!['s', 't', 'd'];
    proof { reveal_strlit("std"); }
    let mut parts: Vec<String> = Vec::new();
    if n >= 6 && cs[4] == 'N' && cs[n - 1] == 'E' {
        assert(b.len() >= 2 && b[0] == 'N' && b.last() == 'E');
        let inner = sym.substring_char(5, n - 1);
        assert(inner@ =~= b.subrange(1, b.len() - 1));
        let ics = chars_of(inner);
        if ics.len() >= 2 && ics[0] == 'S' && ics[1] == 't' {
            parts.push(crate::text::str_to_string("std"));
            if !read_source_names(inner, &ics, 2, &mut parts) {
                return None;
            }
            let ghost names = source_names(inner@.skip(2))->Some_0;
            let ghost all = seq![std_scope] + names;
            assert forall|i: int| 0 <= i < all.len() implies #[trigger] parts@[i]@ == all[i] by {
                if i > 0 {
                    assert(parts@[1 + (i - 1)]@ == names[i - 1]);
                }
            }
            Some(join_parts(&parts, Ghost(all)))
        } else {
            assert(inner@.skip(0) =~= inner@);
            if !read_source_names(inner, &ics, 0, &mut parts) {
                return None;
            }
            let ghost names = source_names(inner@)->Some_0;
            if parts.len() == 0 {
                return None;
            }
            assert forall|i: int| 0 <= i < names.len() implies #[trigger] parts@[i]@ == names[i] by {
                assert(parts@[0 + i]@ == names[i]);
            }
            Some(join_parts(&parts, Ghost(names)))
        }
    } else if n >= 6 && cs[4] == 'S' && cs[5] == 't' {
        assert(!(b.len() >= 2 && b[0] == 'N' && b.last() == 'E'));
        assert(b.skip(2) =~= sym@.skip(6));
        parts.push(crate::text::str_to_string("std"));
        if !read_source_names(sym, &cs, 6, &mut parts) {
            return None;
        }
        let ghost names = source_names(sym@.skip(6))->Some_0;
        if parts.len() != 2 {
            return None;
        }
        let ghost all = seq![std_scope] + names;
        assert(parts@[1int + 0int]@ == names[0]);
        assert forall|i: int| 0 <= i < all.len() implies #[trigger] parts@[i]@ == all[i] by {}
        Some(join_parts(&parts, Ghost(all)))
    } else {
        assert(!(b.len() >= 2 && b[0] == 'N' && b.last() == 'E'));
        assert(!(b.len() >= 2 && b[0] == 'S' && b[1] == 't'));
        if !read_source_names(sym, &cs, 4, &mut parts) {
            return None;
        }
        let ghost names = source_names(sym@.skip(4))->Some_0;
        if parts.len() != 1 {
            return None;
        }
        assert(parts@[0int + 0int]@ == names[0]);
        Some(parts[0].clone())
    }
}

/// The class type whose virtual table holds `addr`: the first symbol covering `addr`
/// names a virtual table, and the type is the first one named after its class, when that
/// is a struct (class) type.
pub open spec fn vtable_type(p: DebugPool, addr: u64) -> Option<Type> {
    match first_symbol_at(p.symbols@, addr) {
        None => None,
        Some(i) => match vtable_class(p.symbols@[i].name@) {
            None => None,
            Some(c) => match first_named(p.types@, c) {
                Some(j) => match p.types@[j] {
                    Some(Type::Struct(ct)) => Some(Type::Struct(ct)),
                    _ => None,
                },
                None => None,
            },
        },
    }
}

impl DebugPool {
    fn size_with_fuel(&self, ty: &Type, fuel: usize) -> (r: Option<usize>)
        ensures
            r == type_size(*self, *ty, fuel as nat),
        decreases fuel,
    {
        match ty {
            Type::Struct(ct) => Some(ct.size),
            Type::Union(ct) => Some(ct.size),
            Type::Varianted(e) => Some(e.outer.size),
            Type::Primtive(pt) => Some((pt.bits / 8) as usize),
            Type::Pointer(_, _) => Some(8),
            Type::Enum(_) => None,
            Type::Alias(tr) => {
                if fuel == 0 {
                    return None;
                }
                match self.try_get_type(tr) {
                    Some(t2) => self.size_with_fuel(t2, fuel - 1),
                    None => None,
                }
            },
            Type::Array(tr, n) => {
                if fuel == 0 {
                    return None;
                }
                match self.try_get_type(tr) {
                    Some(t2) => match self.size_with_fuel(t2, fuel - 1) {
                        Some(s) => n.checked_mul(s),
                        None => None,
                    },
                    None => None,
                }
            },
        }
    }

    /// The size in bytes of a value of type `ty` (see `type_size`).
    pub fn size_of(&self, ty: &Type) -> (r: Option<usize>)
        ensures
            r == type_size(*self, *ty, self.types@.len()),
    {
        self.size_with_fuel(ty, self.types.len())
    }

    fn text_with_fuel(&self, ty: &Type, fuel: usize) -> (r: String)
        ensures
            r@ == type_text(*self, *ty, fuel as nat),
        decreases fuel,
    {
        let mut s = String::new();
        let target = match ty {
            Type::Struct(ct) => {
                return ct.name.clone();
            },
            Type::Union(ct) => {
                return ct.name.clone();
            },
            Type::Varianted(e) => {
                return e.outer.name.clone();
            },
            Type::Enum(n) => {
                return n.clone();
            },
            Type::Primtive(pt) => {
                proof { reveal_strlit("prim"); }
                push_str(&mut s, "prim");
                let d = u64_to_decimal(pt.bits as u64);
                push_str(&mut s, d.as_str());
                return s;
            },
            Type::Pointer(tr, c) => {
                match c {
                    PointerClass::Bare => {
                        proof { reveal_strlit("*"); }
                        push_str(&mut s, "*");
                    },
                    PointerClass::Reference => {
                        proof { reveal_strlit("&"); }
                        push_str(&mut s, "&");
                    },
                    PointerClass::RValueReference => {
                        proof { reveal_strlit("&&"); }
                        push_str(&mut s, "&&");
                    },
                }
                tr
            },
            Type::Alias(tr) => {
                proof { reveal_strlit("="); }
                push_str(&mut s, "=");
                tr
            },
            Type::Array(tr, _) => {
                proof { reveal_strlit("["); }
                push_str(&mut s, "[");
                tr
            },
        };
        if fuel == 0 {
            proof { reveal_strlit("..."); }
            push_str(&mut s, "...");
        } else {
            match self.try_get_type(target) {
                Some(t2) => {
                    let inner = self.text_with_fuel(t2, fuel - 1);
                    push_str(&mut s, inner.as_str());
                },
                None => {
                    proof { reveal_strlit("?"); }
                    push_str(&mut s, "?");
                },
            }
        }
        match ty {
            Type::Array(_, n) => {
                proof { reveal_strlit("; "); reveal_strlit("]"); }
                push_str(&mut s, "; ");
                let d = u64_to_decimal(*n as u64);
                push_str(&mut s, d.as_str());
                push_str(&mut s, "]");
            },
            _ => {},
        }
        s
    }

    /// A human-readable rendering of `ty` (see `type_text`).
    pub fn fmt_type(&self, ty: &Type) -> (r: String)
        ensures
            r@ == type_text(*self, *ty, self.types@.len()),
    {
        self.text_with_fuel(ty, self.types.len())
    }

    /// A human-readable rendering of the type that `ty` names; `?` for an unfilled slot.
    pub fn fmt_type_ref(&self, ty: &TypeRef) -> (r: String)
        ensures
            r@ == match self.spec_type(*ty) {
                Some(t) => type_text(*self, t, self.types@.len()),
                None => seq!['?'],
            },
    {
        match self.try_get_type(ty) {
            Some(t) => self.fmt_type(t),
            None => {
                let mut s = String::new();
                proof { reveal_strlit("?"); }
                push_str(&mut s, "?");
                s
            },
        }
    }

    /// Find a type by the human-readable/debug name: the first filled slot whose type
    /// has that name.
    pub fn find_type_by_name(&self, name: &str) -> (r: Option<&Type>)
        ensures
            match first_named(self.types@, name@) {
                Some(i) => r matches Some(t) && self.types@[i] == Some(*t),
                None => r is None,
            },
    {
        let n = self.types.len();
        for i in 0..n
            invariant
                n == self.types@.len(),
                forall|j: int| 0 <= j < i ==> !#[trigger] slot_named(self.types@[j], name@),
        {
            match &self.types[i] {
                Some(t) => {
                    match lookup_name_exec(t) {
                        Some(tn) => {
                            if str_eq(tn, name) {
                                proof { lemma_first_named_found(self.types@, name@, i as int); }
                                return Some(t);
                            }
                        },
                        None => {},
                    }
                },
                None => {},
            }
        }
        proof { lemma_first_named_absent(self.types@, name@); }
        None
    }

    /// Find a type by looking for a matching vtable: the first symbol covering `addr`
    /// names a virtual table, and the type is the first one named after its class, when
    /// that is a class (struct) type.
    pub fn find_type_by_vtable(&self, addr: u64) -> (r: Option<&Type>)
        ensures
            match vtable_type(*self, addr) {
                Some(t) => r matches Some(x) && *x == t,
                None => r is None,
            },
            r matches Some(t) ==> t is Struct,
    {
        match self.resolve_symbol(addr) {
            None => None,
            Some((name, _)) => match vtable_class_name(name) {
                None => None,
                Some(c) => match self.find_type_by_name(c.as_str()) {
                    Some(t) => match t {
                        Type::Struct(_) => Some(t),
                        _ => None,
                    },
                    None => None,
                },
            },
        }
    }

    /// Look up a symbol for the provided address, returning the symbol name and offset
    /// from the start (the first symbol, in order of loading, that covers the address).
    pub fn resolve_symbol(&self, addr: u64) -> (r: Option<(&str, u64)>)
        ensures
            match first_symbol_at(self.symbols@, addr) {
                Some(i) => r matches Some((n, o)) && n@ == self.symbols@[i].name@
                    && o == addr - self.symbols@[i].start,
                None => r is None,
            },
    {
        let n = self.symbols.len();
        for i in 0..n
            invariant
                n == self.symbols@.len(),
                forall|j: int| 0 <= j < i ==> !symbol_covers(self.symbols@[j], addr),
        {
            let s = &self.symbols[i];
            if s.start <= addr && addr - s.start < s.size {
                proof { lemma_first_symbol_found(self.symbols@, addr, i as int); }
                return Some((s.name.as_str(), addr - s.start));
            }
        }
        proof { lemma_first_symbol_absent(self.symbols@, addr); }
        None
    }

    /// The slots of the type table that no DIE filled: types that were referred to but
    /// never described.
    pub fn index_types(&self) -> (r: Vec<TypeRef>)
        ensures
            r@ == unfilled(self.types@),
    {
        let mut r: Vec<TypeRef> = Vec::new();
        let n = self.types.len();
        for i in 0..n
            invariant
                n == self.types@.len(),
                r@ == unfilled(self.types@.take(i as int)),
        {
            assert(self.types@.take(i + 1).drop_last() =~= self.types@.take(i as int));
            if self.types[i].is_none() {
                r.push(TypeRef(i));
            }
            assert(r@ =~= unfilled(self.types@.take(i + 1)));
        }
        assert(self.types@.take(n as int) =~= self.types@);
        r
    }

    fn function_at(&self, pc: u64) -> (r: Option<usize>)
        ensures
            match r {
                Some(i) => first_function_at(self.functions@, pc) == Some(i as int) && i < self.functions@.len(),
                None => first_function_at(self.functions@, pc) is None,
            },
    {
        let n = self.functions.len();
        for i in 0..n
            invariant
                n == self.functions@.len(),
                forall|j: int| 0 <= j < i ==> !self.functions@[j].1.pc_range.spec_contains(pc),
        {
            if self.functions[i].1.pc_range.contains(pc) {
                proof { lemma_first_function_found(self.functions@, pc, i as int); }
                return Some(i);
            }
        }
        proof { lemma_first_function_absent(self.functions@, pc); }
        None
    }

    /// Where variable `name` of the function running at `pc` is stored (see `variable_at`):
    /// its position, the function's frame base and its type.
    pub fn find_variable(&self, pc: u64, name: &str) -> (r: Option<(&VariablePosition, &VariablePosition, TypeRef)>)
        ensures
            match variable_at(*self, pc, name@) {
                Some((pos, fb, ty)) => r matches Some((a, b, c)) && *a == pos && *b == fb && c == ty,
                None => r is None,
            },
    {
        let fi = match self.function_at(pc) {
            Some(fi) => fi,
            None => {
                return None;
            },
        };
        let f = &self.functions[fi].1;
        proof { lemma_index_of_name(f.variables@, name@); }
        let vi = match position_of_name(&f.variables, name) {
            Some(vi) => vi,
            None => {
                return None;
            },
        };
        let v = &f.variables[vi].1;
        match range_at(&v.ranges, pc) {
            Some(ri) => Some((&v.ranges[ri].position, &f.frame_base, v.ty)),
            None => None,
        }
    }
}

fn range_at(rs: &Vec<VariableRange>, pc: u64) -> (r: Option<usize>)
    ensures
        match r {
            Some(i) => first_range_at(rs@, pc) == Some(i as int) && i < rs@.len(),
            None => first_range_at(rs@, pc) is None,
        },
{
    let n = rs.len();
    for i in 0..n
        invariant
            n == rs@.len(),
            forall|j: int| 0 <= j < i ==> !rs@[j].pc_range.spec_contains(pc),
    {
        if rs[i].pc_range.contains(pc) {
            proof { lemma_first_range_found(rs@, pc, i as int); }
            return Some(i);
        }
    }
    proof { lemma_first_range_absent(rs@, pc); }
    None
}

// ---------------------------------------------------------------------------
// Loading a file

/// `x + y` wrapped to 64 bits.
pub open spec fn wrap_add(x: u64, y: u64) -> u64 {
    if x + y > u64::MAX { (x + y - 0x1_0000_0000_0000_0000) as u64 } else { (x + y) as u64 }
}

/// `x - y` wrapped to 64 bits.
pub open spec fn wrap_sub(x: u64, y: u64) -> u64 {
    if x - y < 0 { (x - y + 0x1_0000_0000_0000_0000) as u64 } else { (x - y) as u64 }
}

/// Reading units `us` in order, numbered from `first`, turns `t0` into `t1`, stopping at
/// the first unit that cannot be read (`ok` false).
pub open spec fn units_rel(t0: Tables, us: Seq<UnitEntries>, first: usize, load_base: u64, t1: Tables, ok: bool) -> bool
    decreases us.len(),
{
    if us.len() == 0 {
        ok && t1 == t0
    } else {
        exists|tm: Tables, okm: bool|
            #[trigger] unit_rel(t0, us[0], first, load_base, tm, okm) && if okm {
                units_rel(tm, us.drop_first(), (first + 1) as usize, load_base, t1, ok)
            } else {
                !ok && t1 == tm
            }
    }
}

/// `s` is `orig` moved by `bias`.
pub open spec fn symbol_moved(s: Symbol, orig: Symbol, bias: u64) -> bool {
    s.name@ == orig.name@ && s.start == wrap_add(orig.start, bias) && s.size == orig.size
}

impl DebugPool {
    /// Loads the debug information of a file mapped at `base`, whose bytes there were
    /// linked at address `link_base`: its compilation units in order (stopping at the
    /// first that cannot be read), then its symbols and the rows of its call-frame
    /// information, all moved by `base - link_base`.
    pub fn add_file(&mut self, base: u64, link_base: u64, units: &[UnitEntries], symbols: &[Symbol], rows: &[FrameRow]) -> (r: Result<(), DwarfError>)
        requires
            old(self).inv(),
            old(self).next_unit_index + units@.len() <= usize::MAX,
        ensures
            final(self).inv(),
            units_rel(tables(*old(self)), units@, old(self).next_unit_index,
                wrap_sub(base, link_base), tables(*final(self)), r is Ok),
            r is Ok ==> final(self).next_unit_index == old(self).next_unit_index + units@.len(),
            r is Ok ==> final(self).symbols@.len() == old(self).symbols@.len() + symbols@.len()
                && (forall|i: int| 0 <= i < old(self).symbols@.len() ==> #[trigger] final(self).symbols@[i] == old(self).symbols@[i])
                && (forall|i: int| 0 <= i < symbols@.len() ==>
                    symbol_moved(#[trigger] final(self).symbols@[old(self).symbols@.len() + i], symbols@[i], wrap_sub(base, link_base))),
            r is Ok ==> final(self).frame_rows@.len() == old(self).frame_rows@.len() + rows@.len()
                && (forall|i: int| 0 <= i < old(self).frame_rows@.len() ==> #[trigger] final(self).frame_rows@[i] == old(self).frame_rows@[i])
                && (forall|i: int| 0 <= i < rows@.len() ==>
                    row_moved(#[trigger] final(self).frame_rows@[old(self).frame_rows@.len() + i], rows@[i], wrap_sub(base, link_base))),
            r is Err ==> final(self).symbols == old(self).symbols,
            r is Err ==> final(self).frame_rows == old(self).frame_rows,
    {
        let bias = base.wrapping_sub(link_base);
        let ghost t0 = tables(*self);
        let ghost first = self.next_unit_index;
        let ghost us = units@;
        let n = units.len();
        let mut i: usize = 0;
        let mut result: Result<(), DwarfError> = Ok(());
        assert(us.skip(0) =~= us);
        while result.is_ok() && i < n
            invariant
                self.inv(),
                n == us.len(),
                us == units@,
                i <= n,
                first + n <= usize::MAX,
                self.symbols == old(self).symbols,
                self.frame_rows == old(self).frame_rows,
                result is Ok ==> self.next_unit_index == first + i,
                result is Ok ==> forall|t1: Tables, ok: bool|
                    #[trigger] units_rel(tables(*self), us.skip(i as int), (first + i) as usize, bias, t1, ok)
                        ==> units_rel(t0, us, first, bias, t1, ok),
                result is Err ==> units_rel(t0, us, first, bias, tables(*self), false),
            decreases (if result is Ok { 1int } else { 0int }), n - i,
        {
            let ghost tp = tables(*self);
            let ghost rest = us.skip(i as int);
            assert(rest[0] == us[i as int]);
            assert(rest.drop_first() =~= us.skip(i + 1));
            let res = self.add_unit(bias, &units[i]);
            match res {
                Ok(()) => {
                    proof {
                        assert forall|t1: Tables, ok: bool|
                            #[trigger] units_rel(tables(*self), us.skip(i + 1), (first + i + 1) as usize, bias, t1, ok)
                                implies units_rel(t0, us, first, bias, t1, ok) by {
                            assert(unit_rel(tp, rest[0], (first + i) as usize, bias, tables(*self), true));
                            assert(units_rel(tp, rest, (first + i) as usize, bias, t1, ok));
                        }
                    }
                    i = i + 1;
                },
                Err(e) => {
                    proof {
                        assert(unit_rel(tp, rest[0], (first + i) as usize, bias, tables(*self), false));
                        assert(units_rel(tp, rest, (first + i) as usize, bias, tables(*self), false));
                    }
                    result = Err(e);
                },
            }
        }
        if result.is_err() {
            return result;
        }
        assert(us.skip(n as int) =~= Seq::<UnitEntries>::empty());
        assert(units_rel(tables(*self), us.skip(n as int), (first + n) as usize, bias, tables(*self), true));
        let ghost s0 = self.symbols@;
        let ghost tf = tables(*self);
        let ghost nf = self.next_unit_index;
        let m = symbols.len();
        for j in 0..m
            invariant
                m == symbols@.len(),
                self.inv(),
                tables(*self) == tf,
                self.next_unit_index == nf,
                self.symbols@.len() == s0.len() + j,
                forall|k: int| 0 <= k < s0.len() ==> #[trigger] self.symbols@[k] == s0[k],
                forall|k: int| 0 <= k < j ==> symbol_moved(#[trigger] self.symbols@[s0.len() + k], symbols@[k], bias),
                self.frame_rows == old(self).frame_rows,
        {
            let s = &symbols[j];
            self.symbols.push(Symbol { name: s.name.clone(), start: s.start.wrapping_add(bias), size: s.size });
        }
        let ghost rs0 = self.frame_rows@;
        let ghost sf = self.symbols;
        let k = rows.len();
        for j in 0..k
            invariant
                k == rows@.len(),
                self.inv(),
                tables(*self) == tf,
                self.next_unit_index == nf,
                self.symbols == sf,
                self.frame_rows@.len() == rs0.len() + j,
                forall|q: int| 0 <= q < rs0.len() ==> #[trigger] self.frame_rows@[q] == rs0[q],
                forall|q: int| 0 <= q < j ==> row_moved(#[trigger] self.frame_rows@[rs0.len() + q], rows@[q], bias),
        {
            let row = &rows[j];
            self.frame_rows.push(FrameRow { start: row.start.wrapping_add(bias), end: row.end.wrapping_add(bias), rules: row.rules });
        }
        Ok(())
    }
}

/// The symbol found for an address covers it, so the offset returned is within it.
pub proof fn law_symbol_covers(ss: Seq<Symbol>, addr: u64)
    ensures
        first_symbol_at(ss, addr) matches Some(i) ==> 0 <= i < ss.len() && symbol_covers(ss[i], addr)
            && addr - ss[i].start < ss[i].size,
    decreases ss.len(),
{
    if ss.len() > 0 {
        law_symbol_covers(ss.drop_first(), addr);
    }
}

/// The type found by name has that name.
pub proof fn law_found_type_named(ts: Seq<Option<Type>>, name: Seq<char>)
    ensures
        first_named(ts, name) matches Some(i) ==> 0 <= i < ts.len() && slot_named(ts[i], name),
    decreases ts.len(),
{
    if ts.len() > 0 {
        law_found_type_named(ts.drop_first(), name);
    }
}

/// The report of unfilled slots lists exactly the slots no DIE filled.
pub proof fn law_unfilled(ts: Seq<Option<Type>>, r: TypeRef)
    requires
        ts.len() <= usize::MAX,
    ensures
        unfilled(ts).contains(r) <==> (r.0 < ts.len() && ts[r.0 as int] is None),
    decreases ts.len(),
{
    if ts.len() > 0 {
        law_unfilled(ts.drop_last(), r);
        let tail = if ts.last() is None { seq![TypeRef((ts.len() - 1) as usize)] } else { Seq::<TypeRef>::empty() };
        assert(unfilled(ts) == unfilled(ts.drop_last()) + tail);
        if unfilled(ts).contains(r) {
            let k = choose|k: int| 0 <= k < unfilled(ts).len() && unfilled(ts)[k] == r;
            if k >= unfilled(ts.drop_last()).len() {
                assert(tail[k - unfilled(ts.drop_last()).len()] == r);
            } else {
                assert(unfilled(ts.drop_last())[k] == r);
            }
        }
        if r.0 < ts.len() - 1 {
            assert(ts.drop_last()[r.0 as int] == ts[r.0 as int]);
        }
        if r.0 < ts.len() && ts[r.0 as int] is None {
            if r.0 == ts.len() - 1 {
                assert(unfilled(ts)[unfilled(ts.drop_last()).len() as int] == r);
            } else {
                assert(ts.drop_last()[r.0 as int] is None);
                let k = choose|k: int| 0 <= k < unfilled(ts.drop_last()).len() && unfilled(ts.drop_last())[k] == r;
                assert(unfilled(ts)[k] == r);
            }
        }
    }
}

} // verus!
