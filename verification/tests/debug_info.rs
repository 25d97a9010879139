use memory_analyser::debug_info::{
    CompositeField, CompositeType, DebugPool, PcRange, PcRanges, PointerClass, PrimitiveType, Symbol, Type, TypeRef,
    UnitEncoding, VariableLocation, VariablePosition,
};
use memory_analyser::core_dump::CpuState;
use memory_analyser::frames::{position_site, VariableSite};
use memory_analyser::debug_query::vtable_class_name;
use memory_analyser::dwarf::{
    AttrValue, DieName, DieRecord, LocListAttr, RangeListAttr, UnitEntries, DW_AT_BYTE_SIZE, DW_AT_DATA_MEMBER_LOCATION,
    DW_AT_HIGH_PC, DW_AT_LOCATION, DW_AT_LOW_PC, DW_AT_TYPE, DW_TAG_BASE_TYPE, DW_TAG_COMPILE_UNIT, DW_TAG_MEMBER,
    DW_TAG_POINTER_TYPE, DW_TAG_STRUCTURE_TYPE, DW_TAG_SUBPROGRAM, DW_TAG_TYPEDEF, DW_TAG_VARIABLE,
};
use memory_analyser::visit_helpers::{get_field, resolve_alias_chain, Path};

fn die(depth: usize, offset: usize, tag: u16, name: Option<&str>, attrs: Vec<(u16, AttrValue)>) -> DieRecord {
    DieRecord {
        depth,
        offset,
        tag,
        name: match name {
            Some(n) => DieName::Text(n.to_string()),
            None => DieName::Absent,
        },
        attrs,
        ranges: RangeListAttr::Absent,
        location: LocListAttr::NotAList,
    }
}

fn enc() -> UnitEncoding {
    UnitEncoding { address_size: 8, is_dwarf64: false, version: 4 }
}

/// A unit with `int`, `struct Point { x: int, y: int }`, `Point *`, `typedef Point P`
/// and `main` (0x1000..0x1100) with a variable `p` at 0x2000.
fn sample_unit() -> UnitEntries {
    UnitEntries {
        is_compilation: true,
        encoding: enc(),
        entries: vec![
            die(0, 11, DW_TAG_COMPILE_UNIT, None, vec![]),
            die(1, 20, DW_TAG_BASE_TYPE, Some("int"), vec![(DW_AT_BYTE_SIZE, AttrValue::Udata(4))]),
            die(1, 30, DW_TAG_STRUCTURE_TYPE, Some("Point"), vec![(DW_AT_BYTE_SIZE, AttrValue::Udata(8))]),
            die(2, 40, DW_TAG_MEMBER, Some("x"), vec![(DW_AT_DATA_MEMBER_LOCATION, AttrValue::Udata(0)), (DW_AT_TYPE, AttrValue::UnitRef(20))]),
            die(2, 50, DW_TAG_MEMBER, Some("y"), vec![(DW_AT_DATA_MEMBER_LOCATION, AttrValue::Udata(4)), (DW_AT_TYPE, AttrValue::UnitRef(20))]),
            die(1, 60, DW_TAG_POINTER_TYPE, None, vec![(DW_AT_TYPE, AttrValue::UnitRef(30))]),
            die(1, 65, DW_TAG_TYPEDEF, Some("P"), vec![(DW_AT_TYPE, AttrValue::UnitRef(30))]),
            die(1, 70, DW_TAG_SUBPROGRAM, Some("main"), vec![(DW_AT_LOW_PC, AttrValue::Addr(0x1000)), (DW_AT_HIGH_PC, AttrValue::Udata(0x100))]),
            die(2, 80, DW_TAG_VARIABLE, Some("p"), vec![(DW_AT_LOCATION, AttrValue::Addr(0x2000)), (DW_AT_TYPE, AttrValue::UnitRef(30))]),
            die(1, 90, DW_TAG_BASE_TYPE, Some("char"), vec![(DW_AT_BYTE_SIZE, AttrValue::Udata(1))]),
        ],
    }
}

fn sample_pool() -> DebugPool {
    let mut pool = DebugPool::new();
    pool.add_unit(0, &sample_unit()).unwrap();
    pool
}

#[test]
fn add_unit_builds_types() {
    let pool = sample_pool();
    assert_eq!(pool.next_unit_index, 1);
    let point = pool.find_type_by_name("Point").unwrap();
    match point {
        Type::Struct(ct) => {
            assert_eq!(ct.name(), "Point");
            assert_eq!(ct.size, 8);
            let names: Vec<&str> = ct.iter_fields().iter().map(|f| f.name.as_str()).collect();
            assert_eq!(names, vec!["x", "y"]);
            assert_eq!(ct.iter_fields()[1].offset, 4);
        },
        _ => panic!("Point is not a struct"),
    }
    assert_eq!(pool.size_of(point), Some(8));
    let int = pool.find_type_by_name("int").unwrap();
    assert_eq!(pool.size_of(int), Some(4));
    assert_eq!(pool.fmt_type(int), "prim32");
    assert!(pool.index_types().is_empty());
}

#[test]
fn pointers_and_aliases_are_rendered() {
    let pool = sample_pool();
    let ptr = pool.types.iter().flatten().find(|t| matches!(t, Type::Pointer(..))).unwrap();
    assert_eq!(pool.fmt_type(ptr), "*Point");
    assert_eq!(pool.size_of(ptr), Some(8));
    let alias = pool.types.iter().flatten().find(|t| matches!(t, Type::Alias(..))).unwrap();
    assert_eq!(pool.fmt_type(alias), "=Point");
    assert_eq!(pool.size_of(alias), Some(8));
    let resolved = resolve_alias_chain(&pool, alias).unwrap();
    assert_eq!(pool.fmt_type(resolved), "Point");
}

#[test]
fn variables_are_found_by_program_point() {
    let pool = sample_pool();
    let (pos, fb, ty) = pool.find_variable(0x1010, "p").unwrap();
    assert!(matches!(pos, VariablePosition::Fixed(0x2000)));
    assert!(matches!(fb, VariablePosition::OptimisedOut));
    assert_eq!(pool.fmt_type_ref(&ty), "Point");
    assert!(pool.find_variable(0x1100, "p").is_none());
    assert!(pool.find_variable(0x1010, "q").is_none());
}

#[test]
fn variables_at_fixed_addresses_need_no_evaluation() {
    let pool = sample_pool();
    let mut gp = [0u64; 16];
    gp[7] = 0x7000;
    let state = CpuState { pc: 0x1010, gp_registers: gp };
    let (site, fb, ty) = pool.get_variable(&state, "p").unwrap();
    assert!(matches!(site, VariableSite::Known(VariableLocation::Memory(0x2000))));
    assert!(matches!(fb, VariablePosition::OptimisedOut));
    assert_eq!(pool.fmt_type_ref(&ty), "Point");
    let elsewhere = CpuState { pc: 0x1100, gp_registers: gp };
    assert!(pool.get_variable(&elsewhere, "p").is_none());
    assert!(position_site(&VariablePosition::OptimisedOut).is_none());
    let enc = UnitEncoding { address_size: 8, is_dwarf64: false, version: 4 };
    let expr = VariablePosition::Expr(vec![0x91, 0x10], enc);
    match position_site(&expr) {
        Some(VariableSite::Evaluate(b, e)) => {
            assert_eq!(b, &vec![0x91, 0x10]);
            assert_eq!(e.version, 4);
        },
        _ => panic!("an expression is evaluated"),
    }
}

#[test]
fn get_field_walks_paths() {
    let pool = sample_pool();
    let point = pool.find_type_by_name("Point").unwrap();
    let (o, ty) = get_field(&pool, point, &Path::root().field("y")).unwrap();
    assert_eq!(o, 4);
    assert_eq!(pool.fmt_type_ref(&ty), "prim32");
    assert!(get_field(&pool, point, &Path::root().field("z")).is_none());
    assert!(get_field(&pool, point, &Path::root()).is_none());
    assert!(get_field(&pool, point, &Path::root().field("y").field("w")).is_none());
}

#[test]
fn unit_that_is_not_a_compilation_unit_is_refused() {
    let mut pool = DebugPool::new();
    let unit = UnitEntries { is_compilation: false, encoding: enc(), entries: vec![] };
    assert!(pool.add_unit(0, &unit).is_err());
    assert_eq!(pool.next_unit_index, 1);
}

#[test]
fn unreadable_member_offset_is_refused() {
    let mut pool = DebugPool::new();
    let unit = UnitEntries {
        is_compilation: true,
        encoding: enc(),
        entries: vec![
            die(0, 11, DW_TAG_COMPILE_UNIT, None, vec![]),
            die(1, 30, DW_TAG_STRUCTURE_TYPE, Some("S"), vec![]),
            die(2, 40, DW_TAG_MEMBER, Some("x"), vec![(DW_AT_DATA_MEMBER_LOCATION, AttrValue::Exprloc(vec![0x23])), (DW_AT_TYPE, AttrValue::UnitRef(20))]),
        ],
    };
    assert!(pool.add_unit(0, &unit).is_err());
}

#[test]
fn add_file_relocates_code_and_symbols() {
    let mut pool = DebugPool::new();
    let symbols = [
        Symbol { name: "main".to_string(), start: 0x1000, size: 0x100 },
        Symbol { name: "_ZTV5Point".to_string(), start: 0x3000, size: 0x20 },
    ];
    pool.add_file(0x555500000000, 0, &[sample_unit()], &symbols, &[]).unwrap();
    assert_eq!(pool.resolve_symbol(0x555500001010), Some(("main", 0x10)));
    assert_eq!(pool.resolve_symbol(0x555500000fff), None);
    assert!(pool.find_variable(0x555500001010, "p").is_some());
    let t = pool.find_type_by_vtable(0x555500003010).unwrap();
    assert_eq!(pool.fmt_type(t), "Point");
    assert!(pool.find_type_by_vtable(0x555500001000).is_none());
}

#[test]
fn vtable_symbols_name_their_class() {
    assert_eq!(vtable_class_name("_ZTV5Point"), Some("Point".to_string()));
    assert_eq!(vtable_class_name("_ZTVN3HIR7TypeRefE"), Some("HIR::TypeRef".to_string()));
    assert_eq!(vtable_class_name("_ZTVNSt6detail4NodeE"), Some("std::detail::Node".to_string()));
    assert_eq!(vtable_class_name("_ZTVSt9exception"), Some("std::exception".to_string()));
    assert_eq!(vtable_class_name("_ZTI5Point"), None);
    assert_eq!(vtable_class_name("_ZTV5Poin"), None);
    assert_eq!(vtable_class_name("_ZTVN3HIR7TypeRefIiEE"), None);
}

#[test]
fn unfilled_slots_are_reported() {
    let mut pool = DebugPool::new();
    let a = pool.dwarf_type_ref(0, 10);
    let b = pool.dwarf_type_ref(0, 20);
    assert_eq!(pool.dwarf_type_ref(0, 10), a);
    pool.set_type(b, Type::Primtive(PrimitiveType { name: "u8".to_string(), bits: 8 }));
    assert_eq!(pool.index_types(), vec![a]);
    assert_eq!(pool.fmt_type_ref(&a), "?");
}

#[test]
fn sizes_of_arrays_and_enums() {
    let mut pool = DebugPool::new();
    let e = pool.dwarf_type_ref(0, 1);
    pool.set_type(e, Type::Primtive(PrimitiveType { name: "u16".to_string(), bits: 16 }));
    let arr = Type::Array(e, 10);
    assert_eq!(pool.size_of(&arr), Some(20));
    assert_eq!(pool.fmt_type(&arr), "[prim16; 10]");
    assert_eq!(pool.size_of(&Type::Enum("E".to_string())), None);
    let r = Type::Pointer(e, PointerClass::RValueReference);
    assert_eq!(pool.fmt_type(&r), "&&prim16");
}

#[test]
fn pc_ranges_contain_their_start_only() {
    let r = PcRange { start: 0x10, end: 0x20 };
    assert!(r.contains(0x10));
    assert!(!r.contains(0x20));
    let rs = PcRanges { ranges: vec![r, PcRange { start: 0x40, end: 0x41 }] };
    assert!(rs.contains(0x40));
    assert!(!rs.contains(0x30));
    assert!(!rs.is_empty());
    assert!(PcRanges { ranges: vec![] }.is_empty());
}

#[test]
fn composite_type_accessors() {
    let mut ct = CompositeType::new("S".to_string(), 16);
    ct.fields.push(CompositeField { offset: 8, name: "b".to_string(), ty: TypeRef(0) });
    ct.parents.push((0, TypeRef(1)));
    assert_eq!(ct.name(), "S");
    assert_eq!(ct.iter_fields().len(), 1);
    assert_eq!(ct.parents(), &[(0, TypeRef(1))]);
}
