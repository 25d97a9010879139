use memory_analyser::core_dump::CpuState;
use memory_analyser::debug_info::{CompositeField, CompositeType, DebugPool, PointerClass, PrimitiveType, Type, TypeRef};
use memory_analyser::render::{byte_str, dump_type_fields};

#[test]
fn byte_strings_are_escaped() {
    assert_eq!(byte_str(b"hi\n"), "\"hi\\n\"");
    assert_eq!(byte_str(&[0, 9, 13, b'"', 0x7f, 0xab]), "\"\\0\\t\\r\\\"\\x7F\\xAB\"");
    assert_eq!(byte_str(b""), "\"\"");
}

#[test]
fn register_state_text() {
    let mut regs = [0u64; 16];
    regs[0] = 0x1234;
    regs[15] = u64::MAX;
    let c = CpuState { pc: 0x401000, gp_registers: regs };
    let t = c.to_string();
    assert!(t.starts_with("PC=0x401000\nRAX:0000000000001234 RDX:0000000000000000"));
    assert!(t.contains("\nR8 :0000000000000000 R9 :"));
    assert!(t.ends_with(" R15:ffffffffffffffff"));
    assert_eq!(t.matches('\n').count(), 4);
}

#[test]
fn type_fields_are_dumped_with_offsets() {
    let mut pool = DebugPool::new();
    let int = TypeRef(0);
    pool.types.push(Some(Type::Primtive(PrimitiveType { name: "int".to_string(), bits: 32 })));
    let ptr = TypeRef(1);
    pool.types.push(Some(Type::Pointer(int, PointerClass::Bare)));
    let mut base = CompositeType::new("Base".to_string(), 4);
    base.fields.push(CompositeField { offset: 0, name: "id".to_string(), ty: int });
    pool.types.push(Some(Type::Struct(base)));
    let mut ct = CompositeType::new("S".to_string(), 16);
    ct.parents.push((0, TypeRef(2)));
    ct.fields.push(CompositeField { offset: 8, name: "p".to_string(), ty: ptr });
    ct.sub_types.push(("P".to_string(), ptr));
    let s = Type::Struct(ct);
    assert_eq!(
        dump_type_fields(&pool, &s, 0x10),
        "S { type P = *prim32; Base { id: @0x10: prim32, }; p: @0x18: *prim32, }"
    );
    let u = Type::Union(CompositeType::new("U".to_string(), 4));
    assert_eq!(dump_type_fields(&pool, &u, 0), "union U { }");
}
