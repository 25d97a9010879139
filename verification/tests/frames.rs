use memory_analyser::debug_info::Symbol;
use memory_analyser::frames::{all_visited, frame_variables, mark_visited, RootVar};
use memory_analyser::bytes::ElfClass;
use memory_analyser::core_dump::{CoreDump, CpuState, Segment, PT_LOAD};
use memory_analyser::debug_info::{DebugPool, VariableLocation};
use memory_analyser::frames::{answer, frame_base_value, frame_cfa, get_caller, CfaRule, EvalRequest, FrameRow, FrameRules, RegisterRule};

const BASE: u64 = 0x7000;

fn stack_dump(words: &[(u64, u64)]) -> CoreDump {
    let mut mem = vec![0u8; 0x100];
    for (at, v) in words {
        let o = (at - BASE) as usize;
        mem[o..o + 8].copy_from_slice(&v.to_le_bytes());
    }
    let mut file = vec![0u8; 0x40];
    file.extend_from_slice(&mem);
    let segs = [Segment { p_type: PT_LOAD, p_offset: 0x40, p_vaddr: BASE, p_memsz: 0x100 }];
    CoreDump::from_elf(ElfClass::Elf64, &segs, &[], file).unwrap()
}

fn state(rsp: u64, rbp: u64) -> CpuState {
    let mut gp = [0u64; 16];
    gp[7] = rsp;
    gp[6] = rbp;
    gp[0] = 11;
    CpuState { pc: 0x401234, gp_registers: gp }
}

fn rules(cfa_offset: i64, ra: RegisterRule, rbp: RegisterRule) -> FrameRules {
    FrameRules { cfa: CfaRule::RegisterAndOffset { register: 7, offset: cfa_offset }, ra, rbp }
}

#[test]
fn cfa_is_register_plus_offset() {
    let s = state(0x7010, 0);
    assert_eq!(frame_cfa(&s, &rules(8, RegisterRule::Offset(-8), RegisterRule::Unchanged)), Some(0x7018));
    assert_eq!(frame_cfa(&s, &rules(-16, RegisterRule::Offset(-8), RegisterRule::Unchanged)), Some(0x7000));
    let other = FrameRules { cfa: CfaRule::Other, ra: RegisterRule::Offset(-8), rbp: RegisterRule::Unchanged };
    assert_eq!(frame_cfa(&s, &other), None);
    let high = FrameRules { cfa: CfaRule::RegisterAndOffset { register: 16, offset: 0 }, ra: RegisterRule::Offset(-8), rbp: RegisterRule::Unchanged };
    assert_eq!(frame_cfa(&s, &high), None);
}

#[test]
fn caller_takes_return_address_and_saved_rbp() {
    // CFA = RSP + 16 = 0x7020; return address at CFA - 8, saved RBP at CFA - 16.
    let d = stack_dump(&[(0x7018, 0x402000), (0x7010, 0x7080)]);
    let s = state(0x7010, 0x1234);
    let c = get_caller(&s, &rules(16, RegisterRule::Offset(-8), RegisterRule::Offset(-16)), &d).unwrap();
    assert_eq!(c.pc, 0x402000);
    assert_eq!(c.gp_registers[7], 0x7020);
    assert_eq!(c.gp_registers[6], 0x7080);
    assert_eq!(c.gp_registers[0], 11);
}

#[test]
fn caller_keeps_rbp_without_a_rule() {
    let d = stack_dump(&[(0x7018, 0x402000)]);
    let s = state(0x7010, 0x1234);
    let c = get_caller(&s, &rules(16, RegisterRule::Offset(-8), RegisterRule::Unchanged), &d).unwrap();
    assert_eq!(c.pc, 0x402000);
    assert_eq!(c.gp_registers[6], 0x1234);
}

#[test]
fn no_caller_at_zero_return_address_or_unreadable_stack() {
    let d = stack_dump(&[]);
    let s = state(0x7010, 0);
    // the return address slot holds zero
    assert!(get_caller(&s, &rules(16, RegisterRule::Offset(-8), RegisterRule::Unchanged), &d).is_none());
    // the slot lies outside the dump
    let far = state(0x9000, 0);
    assert!(get_caller(&far, &rules(16, RegisterRule::Offset(-8), RegisterRule::Unchanged), &d).is_none());
    // no rule for the return address
    let d2 = stack_dump(&[(0x7018, 0x402000)]);
    assert!(get_caller(&s, &rules(16, RegisterRule::Unchanged, RegisterRule::Unchanged), &d2).is_none());
    assert!(get_caller(&s, &rules(16, RegisterRule::Other, RegisterRule::Unchanged), &d2).is_none());
}

#[test]
fn answers_register_memory_and_frame_requests() {
    let d = stack_dump(&[(0x7040, 0x1122334455667788)]);
    let s = state(0x7010, 0x7080);
    assert_eq!(answer(&EvalRequest::Register(7), &s, &d, None, None), Some(0x7010));
    assert_eq!(answer(&EvalRequest::Register(16), &s, &d, None, None), None);
    assert_eq!(answer(&EvalRequest::Memory { address: 0x7040, size: 8 }, &s, &d, None, None), Some(0x1122334455667788));
    assert_eq!(answer(&EvalRequest::Memory { address: 0x7040, size: 4 }, &s, &d, None, None), Some(0x55667788));
    assert_eq!(answer(&EvalRequest::Memory { address: 0x7040, size: 1 }, &s, &d, None, None), Some(0x88));
    assert_eq!(answer(&EvalRequest::Memory { address: 0x9000, size: 8 }, &s, &d, None, None), None);
    assert_eq!(answer(&EvalRequest::FrameBase, &s, &d, Some(5), None), Some(5));
    assert_eq!(answer(&EvalRequest::FrameBase, &s, &d, None, Some(6)), None);
    assert_eq!(answer(&EvalRequest::CallFrameCfa, &s, &d, None, Some(6)), Some(6));
    assert_eq!(answer(&EvalRequest::RelocatedAddress(0x55), &s, &d, None, None), Some(0x55));
    assert_eq!(answer(&EvalRequest::Other, &s, &d, Some(1), Some(2)), None);
}

#[test]
fn frame_base_from_location() {
    let s = state(0x7010, 0x7080);
    assert_eq!(frame_base_value(&VariableLocation::Memory(0x1000), &s), Some(0x1000));
    assert_eq!(frame_base_value(&VariableLocation::IntegerRegister(6), &s), Some(0x7080));
    assert_eq!(frame_base_value(&VariableLocation::IntegerRegister(99), &s), None);
}

fn pool_with_rows(bias_base: u64) -> DebugPool {
    let mut pool = DebugPool::new();
    let rows = [
        FrameRow { start: 0x1000, end: 0x1010, rules: rules(8, RegisterRule::Offset(-8), RegisterRule::Unchanged) },
        FrameRow { start: 0x1010, end: 0x1100, rules: rules(16, RegisterRule::Offset(-8), RegisterRule::Offset(-16)) },
    ];
    pool.add_file(bias_base + 0x1000, 0x1000, &[], &[], &rows).unwrap();
    pool
}

#[test]
fn add_file_moves_frame_rows() {
    let pool = pool_with_rows(0x400000);
    assert_eq!(pool.frame_rows.len(), 2);
    assert_eq!(pool.frame_rows[0].start, 0x401000);
    assert_eq!(pool.frame_rows[1].end, 0x401100);
}

#[test]
fn pool_finds_rules_by_program_counter() {
    let pool = pool_with_rows(0x400000);
    let mut s = state(0x7010, 0x1234);
    s.pc = 0x401008;
    assert_eq!(pool.cfa(&s), Some(0x7018));
    s.pc = 0x401010;
    assert_eq!(pool.cfa(&s), Some(0x7020));
    s.pc = 0x401100;
    assert_eq!(pool.cfa(&s), None);
    assert!(pool.frame_rules(0x400fff).is_none());
}

#[test]
fn pool_steps_to_the_caller() {
    let pool = pool_with_rows(0x400000);
    let d = stack_dump(&[(0x7018, 0x402000), (0x7010, 0x7080)]);
    let mut s = state(0x7010, 0x1234);
    s.pc = 0x401020;
    let c = pool.get_caller(&s, &d).unwrap();
    assert_eq!(c.pc, 0x402000);
    assert_eq!(c.gp_registers[7], 0x7020);
    assert_eq!(c.gp_registers[6], 0x7080);
    // no row covers the caller's program counter
    assert!(pool.get_caller(&c, &d).is_none());
}

#[test]
fn frame_variables_follow_the_function_at_the_program_counter() {
    let mut pool = DebugPool::new();
    let syms = [
        Symbol { name: "main".to_string(), start: 0x1000, size: 0x100 },
        Symbol { name: "work".to_string(), start: 0x2000, size: 0x100 },
    ];
    pool.add_file(0, 0, &[], &syms, &[]).unwrap();
    let mut vars = vec![
        RootVar { fcn_name: "main".to_string(), var_name: "a".to_string(), visited: false },
        RootVar { fcn_name: "work".to_string(), var_name: "b".to_string(), visited: false },
        RootVar { fcn_name: "main".to_string(), var_name: "c".to_string(), visited: false },
    ];
    let mut s = state(0x7010, 0);
    s.pc = 0x1010;
    assert_eq!(frame_variables(&pool, &s, &vars), vec![0, 2]);
    s.pc = 0x2000;
    assert_eq!(frame_variables(&pool, &s, &vars), vec![1]);
    s.pc = 0x3000;
    assert!(frame_variables(&pool, &s, &vars).is_empty());
    assert!(!all_visited(&vars));
    mark_visited(&mut vars, 0);
    mark_visited(&mut vars, 2);
    assert!(vars[0].visited && !vars[1].visited && vars[2].visited);
    assert!(!all_visited(&vars));
    mark_visited(&mut vars, 1);
    assert!(all_visited(&vars));
}
