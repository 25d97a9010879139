//! Stack frames: stepping to the caller's registers with the frame rules that call-frame
//! information gives, and answering what the evaluation of a variable's location asks.
use vstd::prelude::*;
use vstd::bytes::spec_u32_from_le_bytes;
use crate::core_dump::{CoreDump, CpuState, spec_read};
use crate::debug_info::{DebugPool, TypeRef, UnitEncoding, VariableLocation, VariablePosition};
use crate::debug_query::{first_symbol_at, variable_at};
use crate::text::str_eq;
use crate::debug_query::wrap_add;
use crate::type_handlers::word_at;

verus! {

/// How the canonical frame address (CFA) of a frame is found
#[derive(Clone, Copy, Debug)]
pub enum CfaRule {
    /// The value of a register plus an offset
    RegisterAndOffset { register: u16, offset: i64 },
    /// A rule this library does not follow (an expression)
    Other,
}

/// How a register of the caller is found
#[derive(Clone, Copy, Debug)]
pub enum RegisterRule {
    /// No rule given
    Unchanged,
    /// Saved in memory at the CFA plus an offset
    Offset(i64),
    /// Any other rule
    Other,
}

/// The rules of a frame for the CFA, the return address and the frame pointer (RBP)
#[derive(Clone, Copy, Debug)]
pub struct FrameRules {
    pub cfa: CfaRule,
    pub ra: RegisterRule,
    pub rbp: RegisterRule,
}

/// The frame rules that hold for program counters in `start..end`
#[derive(Clone, Copy, Debug)]
pub struct FrameRow {
    pub start: u64,
    pub end: u64,
    pub rules: FrameRules,
}

/// `r` is `orig` moved by `bias`.
pub open spec fn row_moved(r: FrameRow, orig: FrameRow, bias: u64) -> bool {
    r.start == wrap_add(orig.start, bias) && r.end == wrap_add(orig.end, bias) && r.rules == orig.rules
}

pub open spec fn row_covers(r: FrameRow, pc: u64) -> bool {
    r.start <= pc < r.end
}

/// The index of the first row that covers `pc`.
pub open spec fn first_row_at(rows: Seq<FrameRow>, pc: u64) -> Option<int>
    decreases rows.len(),
{
    if rows.len() == 0 {
        None
    } else if row_covers(rows[0], pc) {
        Some(0)
    } else {
        match first_row_at(rows.drop_first(), pc) {
            Some(i) => Some(i + 1),
            None => None,
        }
    }
}

/// The frame rules at `pc`: those of the first row that covers it.
pub open spec fn rules_at(rows: Seq<FrameRow>, pc: u64) -> Option<FrameRules> {
    match first_row_at(rows, pc) {
        Some(i) => Some(rows[i].rules),
        None => None,
    }
}

proof fn lemma_first_row_found(rows: Seq<FrameRow>, pc: u64, i: int)
    requires
        0 <= i < rows.len(),
        row_covers(rows[i], pc),
        forall|j: int| 0 <= j < i ==> !row_covers(#[trigger] rows[j], pc),
    ensures
        first_row_at(rows, pc) == Some(i),
    decreases i,
{
    if i > 0 {
        assert forall|j: int| 0 <= j < i - 1 implies !row_covers(#[trigger] rows.drop_first()[j], pc) by {
            assert(rows.drop_first()[j] == rows[j + 1]);
        }
        lemma_first_row_found(rows.drop_first(), pc, i - 1);
    }
}

proof fn lemma_first_row_absent(rows: Seq<FrameRow>, pc: u64)
    requires
        forall|j: int| 0 <= j < rows.len() ==> !row_covers(#[trigger] rows[j], pc),
    ensures
        first_row_at(rows, pc) is None,
    decreases rows.len(),
{
    if rows.len() > 0 {
        assert(!row_covers(rows[0], pc));
        assert forall|j: int| 0 <= j < rows.len() - 1 implies !row_covers(#[trigger] rows.drop_first()[j], pc) by {
            assert(rows.drop_first()[j] == rows[j + 1]);
        }
        lemma_first_row_absent(rows.drop_first(), pc);
    }
}

/// Rules are found for `pc` exactly when some row covers it, and they are those of a row
/// that covers it, the first one.
pub proof fn law_rules_found(rows: Seq<FrameRow>, pc: u64)
    ensures
        rules_at(rows, pc) is Some <==> exists|i: int| 0 <= i < rows.len() && #[trigger] row_covers(rows[i], pc),
        first_row_at(rows, pc) matches Some(i) ==> 0 <= i < rows.len() && row_covers(rows[i], pc)
            && rules_at(rows, pc) == Some(rows[i].rules)
            && forall|j: int| 0 <= j < i ==> !row_covers(#[trigger] rows[j], pc),
    decreases rows.len(),
{
    if rows.len() > 0 {
        law_rules_found(rows.drop_first(), pc);
        if !row_covers(rows[0], pc) {
            if exists|i: int| 0 <= i < rows.len() && #[trigger] row_covers(rows[i], pc) {
                let i = choose|i: int| 0 <= i < rows.len() && #[trigger] row_covers(rows[i], pc);
                assert(row_covers(rows.drop_first()[i - 1], pc));
            }
            if first_row_at(rows.drop_first(), pc) is Some {
                let k = first_row_at(rows.drop_first(), pc)->Some_0;
                assert forall|j: int| 0 <= j < k + 1 implies !row_covers(#[trigger] rows[j], pc) by {
                    if j > 0 {
                        assert(rows[j] == rows.drop_first()[j - 1]);
                    }
                }
            }
        }
    }
}

/// `a + o` for a signed `o`, wrapped to 64 bits.
pub open spec fn add_signed(a: u64, o: i64) -> u64 {
    wrap_add(a, o as u64)
}

fn add_signed_exec(a: u64, o: i64) -> (r: u64)
    ensures
        r == add_signed(a, o),
{
    a.wrapping_add(o as u64)
}

/// The CFA of the frame whose registers are `state`.
pub open spec fn spec_cfa(state: CpuState, rules: FrameRules) -> Option<u64> {
    match rules.cfa {
        CfaRule::RegisterAndOffset { register, offset } => if register < 16 {
            Some(add_signed(state.gp_registers@[register as int], offset))
        } else {
            None
        },
        CfaRule::Other => None,
    }
}

/// What the caller of the frame `state` gets back: the CFA (its stack pointer), the
/// return address saved at the CFA plus its offset, and RBP, read back when saved and
/// kept otherwise; `None` when a rule cannot be followed, a read fails or the return
/// address is zero.
pub open spec fn caller_parts(state: CpuState, rules: FrameRules, d: CoreDump) -> Option<(u64, u64, u64)> {
    match spec_cfa(state, rules) {
        None => None,
        Some(cfa) => match rules.ra {
            RegisterRule::Offset(o) => match word_at(d, add_signed(cfa, o), 0) {
                Some(ra) => if ra == 0 {
                    None
                } else {
                    match rules.rbp {
                        RegisterRule::Offset(b) => match word_at(d, add_signed(cfa, b), 0) {
                            Some(bp) => Some((cfa, ra, bp)),
                            None => None,
                        },
                        _ => Some((cfa, ra, state.gp_registers@[6])),
                    }
                },
                None => None,
            },
            _ => None,
        },
    }
}

/// The canonical frame address of the frame `state` (see `spec_cfa`).
pub fn frame_cfa(state: &CpuState, rules: &FrameRules) -> (r: Option<u64>)
    ensures
        r == spec_cfa(*state, *rules),
{
    match rules.cfa {
        CfaRule::RegisterAndOffset { register, offset } => {
            if register < 16 {
                Some(add_signed_exec(state.gp_registers[register as usize], offset))
            } else {
                None
            }
        },
        CfaRule::Other => None,
    }
}

fn word_at_exec(dump: &CoreDump, addr: u64) -> (r: Option<u64>)
    ensures
        r == word_at(*dump, addr, 0),
{
    match dump.read_ptr(addr) {
        Ok(v) => Some(v),
        Err(_) => None,
    }
}

/// The registers of the caller of the frame `state`: the program counter is the return
/// address, RSP the CFA and RBP as `caller_parts` gives it; the other registers are kept.
pub fn get_caller(state: &CpuState, rules: &FrameRules, dump: &CoreDump) -> (r: Option<CpuState>)
    ensures
        match caller_parts(*state, *rules, *dump) {
            None => r is None,
            Some((cfa, ra, bp)) => r matches Some(c) && c.pc == ra
                && c.gp_registers@ == state.gp_registers@.update(7, cfa).update(6, bp),
        },
{
    let cfa = frame_cfa(state, rules)?;
    let ra = match rules.ra {
        RegisterRule::Offset(o) => word_at_exec(dump, add_signed_exec(cfa, o))?,
        _ => {
            return None;
        },
    };
    if ra == 0 {
        return None;
    }
    let bp = match rules.rbp {
        RegisterRule::Offset(b) => word_at_exec(dump, add_signed_exec(cfa, b))?,
        _ => state.gp_registers[6],
    };
    let mut regs = state.gp_registers;
    regs[7] = cfa;
    regs[6] = bp;
    Some(CpuState { pc: ra, gp_registers: regs })
}

impl DebugPool {
    /// The frame rules at `pc` (see `rules_at`).
    pub fn frame_rules(&self, pc: u64) -> (r: Option<FrameRules>)
        ensures
            r == rules_at(self.frame_rows@, pc),
    {
        let n = self.frame_rows.len();
        for i in 0..n
            invariant
                n == self.frame_rows@.len(),
                forall|j: int| 0 <= j < i ==> !row_covers(#[trigger] self.frame_rows@[j], pc),
        {
            let row = &self.frame_rows[i];
            if row.start <= pc && pc < row.end {
                proof { lemma_first_row_found(self.frame_rows@, pc, i as int); }
                return Some(row.rules);
            }
        }
        proof { lemma_first_row_absent(self.frame_rows@, pc); }
        None
    }

    /// The canonical frame address of the frame `state`, by the rules at its program
    /// counter.
    pub fn cfa(&self, state: &CpuState) -> (r: Option<u64>)
        ensures
            r == match rules_at(self.frame_rows@, state.pc) {
                Some(rules) => spec_cfa(*state, rules),
                None => None,
            },
    {
        let rules = self.frame_rules(state.pc)?;
        frame_cfa(state, &rules)
    }

    /// The registers of the caller of the frame `state`, by the rules at its program
    /// counter (see `get_caller`); `None` where no row covers it.
    pub fn get_caller(&self, state: &CpuState, memory: &CoreDump) -> (r: Option<CpuState>)
        ensures
            match rules_at(self.frame_rows@, state.pc) {
                None => r is None,
                Some(rules) => match caller_parts(*state, rules, *memory) {
                    None => r is None,
                    Some((cfa, ra, bp)) => r matches Some(c) && c.pc == ra
                        && c.gp_registers@ == state.gp_registers@.update(7, cfa).update(6, bp),
                },
            },
    {
        let rules = self.frame_rules(state.pc)?;
        get_caller(state, &rules, memory)
    }
}

// ---------------------------------------------------------------------------
// Evaluating locations

/// What the evaluation of a DWARF location expression asks for
#[derive(Clone, Copy, Debug)]
pub enum EvalRequest {
    /// The value of a register (by DWARF number)
    Register(u16),
    /// The value of `size` bytes of memory at `address`
    Memory { address: u64, size: u8 },
    /// The frame base of the function
    FrameBase,
    /// The canonical frame address of the frame
    CallFrameCfa,
    /// An address to relocate
    RelocatedAddress(u64),
    /// Anything else
    Other,
}

/// The answer to `req`: a register of `state` (numbers 0 to 15), a little-endian value
/// read from the dump (1 or 4 bytes where that many are asked, 8 otherwise), the frame base or CFA when known, or an
/// address as it is; `None` otherwise.
pub open spec fn spec_answer(req: EvalRequest, state: CpuState, d: CoreDump, frame_base: Option<u64>, cfa: Option<u64>) -> Option<u64> {
    match req {
        EvalRequest::Register(r) => if r < 16 { Some(state.gp_registers@[r as int]) } else { None },
        EvalRequest::Memory { address, size } => if size == 1 {
            match spec_read(d, address, 1) {
                Some(b) => Some(b[0] as u64),
                None => None,
            }
        } else if size == 4 {
            match spec_read(d, address, 4) {
                Some(b) => Some(spec_u32_from_le_bytes(b) as u64),
                None => None,
            }
        } else {
            word_at(d, address, 0)
        },
        EvalRequest::FrameBase => frame_base,
        EvalRequest::CallFrameCfa => cfa,
        EvalRequest::RelocatedAddress(a) => Some(a),
        EvalRequest::Other => None,
    }
}

/// Answers what the evaluation of a location expression asks (see `spec_answer`).
pub fn answer(req: &EvalRequest, state: &CpuState, dump: &CoreDump, frame_base: Option<u64>, cfa: Option<u64>) -> (r: Option<u64>)
    ensures
        r == spec_answer(*req, *state, *dump, frame_base, cfa),
{
    match *req {
        EvalRequest::Register(r) => if r < 16 { Some(state.gp_registers[r as usize]) } else { None },
        EvalRequest::Memory { address, size } => {
            if size == 1 {
                match dump.read_u8(address) {
                    Ok(v) => Some(v as u64),
                    Err(_) => None,
                }
            } else if size == 4 {
                match dump.read_u32(address) {
                    Ok(v) => Some(v as u64),
                    Err(_) => None,
                }
            } else {
                word_at_exec(dump, address)
            }
        },
        EvalRequest::FrameBase => frame_base,
        EvalRequest::CallFrameCfa => cfa,
        EvalRequest::RelocatedAddress(a) => Some(a),
        EvalRequest::Other => None,
    }
}

/// Where a value is found: at a known place, or where the evaluation of a location
/// expression (of a unit with the given encoding) puts it
pub enum VariableSite<'a> {
    Known(VariableLocation),
    Evaluate(&'a Vec<u8>, &'a UnitEncoding),
}

/// The site that a position gives: a fixed address, or its expression; none where the
/// value was optimised out.
pub fn position_site(pos: &VariablePosition) -> (r: Option<VariableSite<'_>>)
    ensures
        match *pos {
            VariablePosition::Fixed(a) => r matches Some(VariableSite::Known(VariableLocation::Memory(a2))) && a2 == a,
            VariablePosition::Expr(b, e) => r matches Some(VariableSite::Evaluate(b2, e2)) && *b2 == b && *e2 == e,
            VariablePosition::OptimisedOut => r is None,
        },
{
    match pos {
        VariablePosition::Fixed(a) => Some(VariableSite::Known(VariableLocation::Memory(*a))),
        VariablePosition::Expr(b, e) => Some(VariableSite::Evaluate(b, e)),
        VariablePosition::OptimisedOut => None,
    }
}

impl DebugPool {
    /// Where variable `name` of the function running in `state` is (see `variable_at` and
    /// `position_site`), with the function's frame base (which an expression may ask
    /// for) and the variable's type; `None` where it is not found or was optimised out.
    pub fn get_variable(&self, state: &CpuState, name: &str) -> (r: Option<(VariableSite<'_>, &VariablePosition, TypeRef)>)
        ensures
            match variable_at(*self, state.pc, name@) {
                None => r is None,
                Some((pos, fb, ty)) => match pos {
                    VariablePosition::Fixed(a) => r matches Some((VariableSite::Known(VariableLocation::Memory(a2)), fb2, t))
                        && a2 == a && *fb2 == fb && t == ty,
                    VariablePosition::Expr(b, e) => r matches Some((VariableSite::Evaluate(b2, e2), fb2, t))
                        && *b2 == b && *e2 == e && *fb2 == fb && t == ty,
                    VariablePosition::OptimisedOut => r is None,
                },
            },
    {
        let (pos, fb, ty) = self.find_variable(state.get_pc(), name)?;
        let site = position_site(pos)?;
        Some((site, fb, ty))
    }
}

/// The value of a frame base that evaluated to `loc`: the address, or the value of the
/// register (numbers 0 to 15).
pub fn frame_base_value(loc: &VariableLocation, state: &CpuState) -> (r: Option<u64>)
    ensures
        r == match *loc {
            VariableLocation::Memory(a) => Some(a),
            VariableLocation::IntegerRegister(i) => if i < 16 { Some(state.gp_registers@[i as int]) } else { None },
        },
{
    match *loc {
        VariableLocation::Memory(a) => Some(a),
        VariableLocation::IntegerRegister(i) => if i < 16 { Some(state.gp_registers[i as usize]) } else { None },
    }
}

// ---------------------------------------------------------------------------
// Walking the stack for the chosen variables

/// A variable to start a visit from: the function it belongs to, its name, and whether
/// a frame of that function was met
pub struct RootVar {
    pub fcn_name: String,
    pub var_name: String,
    pub visited: bool,
}

/// The name of the function running at `pc`: that of the first symbol covering it.
pub open spec fn frame_function(p: DebugPool, pc: u64) -> Option<Seq<char>> {
    match first_symbol_at(p.symbols@, pc) {
        Some(i) => Some(p.symbols@[i].name@),
        None => None,
    }
}

/// The indices, in order, of the variables of `vars` that belong to the function `name`.
pub open spec fn vars_of(vars: Seq<RootVar>, name: Seq<char>) -> Seq<usize>
    decreases vars.len(),
{
    if vars.len() == 0 {
        Seq::empty()
    } else {
        vars_of(vars.drop_last(), name) + if vars.last().fcn_name@ == name {
            seq![(vars.len() - 1) as usize]
        } else {
            Seq::empty()
        }
    }
}

/// The variables to visit in the frame `state`: those of the function running there, in
/// order; none where no symbol covers its program counter.
pub fn frame_variables(debug: &DebugPool, state: &CpuState, vars: &Vec<RootVar>) -> (r: Vec<usize>)
    ensures
        match frame_function(*debug, state.pc) {
            Some(name) => r@ == vars_of(vars@, name),
            None => r@.len() == 0,
        },
{
    let mut r: Vec<usize> = Vec::new();
    let name = match debug.resolve_symbol(state.get_pc()) {
        Some((n, _)) => n,
        None => {
            return r;
        },
    };
    let n = vars.len();
    for i in 0..n
        invariant
            n == vars@.len(),
            r@ == vars_of(vars@.take(i as int), name@),
    {
        assert(vars@.take(i + 1).drop_last() =~= vars@.take(i as int));
        if str_eq(vars[i].fcn_name.as_str(), name) {
            r.push(i);
        }
        assert(r@ =~= vars_of(vars@.take(i + 1), name@));
    }
    assert(vars@.take(n as int) =~= vars@);
    r
}

/// Records that variable `i` was met in a frame of its function.
pub fn mark_visited(vars: &mut Vec<RootVar>, i: usize)
    requires
        i < old(vars)@.len(),
    ensures
        final(vars)@.len() == old(vars)@.len(),
        forall|j: int| 0 <= j < old(vars)@.len() && j != i ==> #[trigger] final(vars)@[j] == old(vars)@[j],
        final(vars)@[i as int].visited,
        final(vars)@[i as int].fcn_name == old(vars)@[i as int].fcn_name,
        final(vars)@[i as int].var_name == old(vars)@[i as int].var_name,
{
    vars[i].visited = true;
}

/// Whether every variable was met in a frame of its function, so the walk up the stack
/// can stop.
pub fn all_visited(vars: &Vec<RootVar>) -> (r: bool)
    ensures
        r == forall|j: int| 0 <= j < vars@.len() ==> #[trigger] vars@[j].visited,
{
    let n = vars.len();
    for i in 0..n
        invariant
            n == vars@.len(),
            forall|j: int| 0 <= j < i ==> #[trigger] vars@[j].visited,
    {
        if !vars[i].visited {
            return false;
        }
    }
    true
}

} // verus!
