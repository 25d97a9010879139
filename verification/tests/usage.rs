use memory_analyser::bytes::ElfClass;
use memory_analyser::core_dump::{CoreDump, Segment, PT_LOAD};
use memory_analyser::debug_info::{CompositeField, CompositeType, DebugPool, EnumVariant, Enum, PointerClass, PrimitiveType, Type, TypeRef, VariantDiscr};
use memory_analyser::type_handlers::Input;
use memory_analyser::usage::{Output, SparseBitmap};
use memory_analyser::visit::visit_type;
use memory_analyser::visit_helpers::Path;

fn count(v: &[(String, u64)], k: &str) -> Option<u64> {
    v.iter().find(|(n, _)| n == k).map(|(_, c)| *c)
}

#[test]
fn bitmap_counts_each_unit_once() {
    let mut b = SparseBitmap::new();
    assert_eq!(b.calculate_usage(), 0);
    assert_eq!(b.mark_area(0x1000, 0x20), 0x20);
    assert_eq!(b.calculate_usage(), 0x20);
    // Marking again adds nothing
    assert_eq!(b.mark_area(0x1000, 0x20), 0);
    // A partial unit counts whole, and overlapping units are counted once
    assert_eq!(b.mark_area(0x1018, 0x10), 0x10);
    assert_eq!(b.calculate_usage(), 0x30);
    assert_eq!(b.mark_area(0x1001, 1), 0);
}

#[test]
fn bitmap_spans_chunks() {
    let mut b = SparseBitmap::new();
    // 1 MiB per chunk: this area straddles two chunks
    assert_eq!(b.mark_area(0x10_0000 - 0x20, 0x40), 0x40);
    assert_eq!(b.mark_area(0x7fff_0000_0000, 16), 16);
    assert_eq!(b.calculate_usage(), 0x50);
}

#[test]
fn empty_area_touches_its_start_unit_only_when_unaligned() {
    let mut b = SparseBitmap::new();
    assert_eq!(b.mark_area(0x1000, 0), 0);
    assert_eq!(b.mark_area(0x1001, 0), 16);
}

#[test]
fn claim_raw_counts_under_path_prefixes() {
    let mut o = Output::new();
    let p = Path::root().field("a").field("b").index(2).field("c").field("d");
    assert_eq!(o.claim_raw(&p, 0x1000, 100, true), 112);
    assert_eq!(count(&o.usage, ""), Some(100));
    assert_eq!(count(&o.usage, ".a"), Some(100));
    assert_eq!(count(&o.usage, ".a.b[2].c"), Some(100));
    assert_eq!(count(&o.usage, ".a.b[2].c.d"), None);
    assert_eq!(o.usage.len(), 5);
    o.claim_raw(&Path::root().field("a"), 0x2000, 8, true);
    assert_eq!(count(&o.usage, ""), Some(108));
    assert_eq!(count(&o.usage, ".a"), Some(108));
    o.claim_raw(&Path::root(), 0x3000, 1, true);
    assert_eq!(count(&o.usage, ""), Some(109));
    o.claim_raw(&Path::root().field("z"), 0x4000, 16, false);
    assert_eq!(count(&o.usage, ".z"), None);
    assert_eq!(o.used_memory.calculate_usage(), 112 + 16 + 16 + 16);
}

#[test]
fn variants_are_counted_per_type() {
    let mut o = Output::new();
    o.count_variant("E", "A");
    o.count_variant("E", "A");
    o.count_variant("E", "B");
    o.count_variant("F", "A");
    assert_eq!(o.enum_variant_counts.len(), 2);
    assert_eq!(count(&o.enum_variant_counts[0].1, "A"), Some(2));
    assert_eq!(count(&o.enum_variant_counts[0].1, "B"), Some(1));
    assert_eq!(count(&o.enum_variant_counts[1].1, "A"), Some(1));
    assert!(o.note_shared(0x10));
    assert!(!o.note_shared(0x10));
}

const BASE: u64 = 0x10000;

fn dump(mem: &[u8]) -> CoreDump {
    let mut file = vec![0u8; 0x40];
    file.extend_from_slice(mem);
    let segs = [Segment { p_type: PT_LOAD, p_offset: 0x40, p_vaddr: BASE, p_memsz: mem.len() as u64 }];
    CoreDump::from_elf(ElfClass::Elf64, &segs, &[], file).unwrap()
}

fn add(pool: &mut DebugPool, t: Type) -> TypeRef {
    let r = TypeRef(pool.types.len());
    pool.types.push(Some(t));
    r
}

#[test]
fn visit_claims_the_root_and_counts_types() {
    let mut pool = DebugPool::new();
    let int = add(&mut pool, Type::Primtive(PrimitiveType { name: "int".to_string(), bits: 32 }));
    let ptr = add(&mut pool, Type::Pointer(int, PointerClass::Bare));
    let mut ct = CompositeType::new("Pair".to_string(), 16);
    ct.fields.push(CompositeField { offset: 0, name: "a".to_string(), ty: int });
    ct.fields.push(CompositeField { offset: 8, name: "p".to_string(), ty: ptr });
    let pair = Type::Struct(ct);
    let d = dump(&[0u8; 0x40]);
    let input = Input { debug: &pool, dump: &d };
    let mut o = Output::new();
    visit_type(&input, &mut o, &pair, BASE, Path::root().field("v"), 100).unwrap();
    assert_eq!(count(&o.usage, ".v"), None);
    let mut o = Output::new();
    visit_type(&input, &mut o, &pair, BASE, Path::root(), 100).unwrap();
    assert_eq!(count(&o.usage, ""), Some(16));
    assert_eq!(count(&o.root_type_counts, "Pair"), Some(1));
    assert_eq!(o.used_memory.calculate_usage(), 16);
    // A pointer that cannot be read fails the visit
    let mut o = Output::new();
    assert!(visit_type(&input, &mut o, &pair, BASE + 0x38, Path::root(), 100).is_err());
    // No budget, no visit
    let mut o = Output::new();
    assert!(visit_type(&input, &mut o, &pair, BASE, Path::root(), 0).is_err());
}

#[test]
fn visit_counts_enum_variants() {
    let mut pool = DebugPool::new();
    let int = add(&mut pool, Type::Primtive(PrimitiveType { name: "u8".to_string(), bits: 8 }));
    let e = Type::Varianted(Enum {
        outer: CompositeType::new("Opt".to_string(), 8),
        discr_ofs: Some(0),
        variants: vec![
            EnumVariant { discr_vals: vec![VariantDiscr::SingleU(0, 1)], fields: vec![] },
            EnumVariant { discr_vals: vec![VariantDiscr::SingleU(1, 1)], fields: vec![CompositeField { offset: 1, name: "v".to_string(), ty: int }] },
        ],
    });
    let mut mem = vec![0u8; 0x40];
    mem[0] = 1;
    let d = dump(&mem);
    let input = Input { debug: &pool, dump: &d };
    let mut o = Output::new();
    visit_type(&input, &mut o, &e, BASE, Path::root(), 100).unwrap();
    visit_type(&input, &mut o, &e, BASE + 8, Path::root(), 100).unwrap();
    assert_eq!(o.enum_variant_counts.len(), 1);
    assert_eq!(o.enum_variant_counts[0].0, "Opt");
    assert_eq!(count(&o.enum_variant_counts[0].1, "v"), Some(1));
    assert_eq!(count(&o.enum_variant_counts[0].1, "#0"), Some(1));
}

fn strukt(name: &str, size: usize, fields: Vec<CompositeField>, parents: Vec<(u64, TypeRef)>) -> Type {
    let mut ct = CompositeType::new(name.to_string(), size);
    ct.fields = fields;
    ct.parents = parents;
    Type::Struct(ct)
}

fn field(name: &str, offset: u64, ty: TypeRef) -> CompositeField {
    CompositeField { offset, name: name.to_string(), ty }
}

fn put(mem: &mut Vec<u8>, at: u64, v: u64) {
    let o = (at - BASE) as usize;
    mem[o..o + 8].copy_from_slice(&v.to_le_bytes());
}

#[test]
fn visit_leaf_types() {
    let mut pool = DebugPool::new();
    let int = add(&mut pool, Type::Primtive(PrimitiveType { name: "int".to_string(), bits: 32 }));
    let ptr = Type::Pointer(int, PointerClass::Bare);
    let arr = Type::Array(int, 4);
    let d = dump(&[0u8; 0x40]);
    let input = Input { debug: &pool, dump: &d };
    let prim = pool.get_type(&int);
    // A primitive at the root is claimed; as a field, nothing changes
    let mut o = Output::new();
    visit_type(&input, &mut o, prim, BASE, Path::root(), 10).unwrap();
    assert_eq!(o.used_memory.calculate_usage(), 16);
    let mut o = Output::new();
    visit_type(&input, &mut o, prim, BASE, Path::root().field("x"), 10).unwrap();
    assert_eq!(o.used_memory.calculate_usage(), 0);
    assert!(o.usage.is_empty());
    // A pointer is read, not followed
    let mut o = Output::new();
    visit_type(&input, &mut o, &ptr, BASE, Path::root().field("p"), 10).unwrap();
    assert!(visit_type(&input, &mut o, &ptr, BASE + 0x100, Path::root().field("p"), 10).is_err());
    // Arrays are not walked
    assert!(visit_type(&input, &mut o, &arr, BASE, Path::root().field("a"), 10).is_err());
    // A claim beyond the address space fails
    let mut o = Output::new();
    assert!(visit_type(&input, &mut o, prim, u64::MAX - 8, Path::root(), 10).is_err());
    assert_eq!(o.used_memory.calculate_usage(), 0);
}

#[test]
fn visit_claims_vector_items() {
    let mut pool = DebugPool::new();
    let int = add(&mut pool, Type::Primtive(PrimitiveType { name: "int".to_string(), bits: 64 }));
    let ptr = add(&mut pool, Type::Pointer(int, PointerClass::Bare));
    let data = add(&mut pool, strukt("_Vector_impl_data", 24, vec![field("_M_start", 0, ptr)], vec![]));
    let alloc = add(&mut pool, strukt("std::allocator<long>", 1, vec![], vec![]));
    let imp = add(&mut pool, strukt("_Vector_impl", 24, vec![], vec![(0, alloc), (0, data)]));
    let base = add(&mut pool, strukt("_Vector_base", 24, vec![field("_M_impl", 0, imp)], vec![]));
    let vec_ty = strukt("std::vector<long>", 24, vec![], vec![(0, base)]);
    let mut mem = vec![0u8; 0x100];
    put(&mut mem, BASE, BASE + 0x80);
    put(&mut mem, BASE + 8, BASE + 0xa0);
    put(&mut mem, BASE + 16, BASE + 0xc0);
    let d = dump(&mem);
    let input = Input { debug: &pool, dump: &d };
    let mut o = Output::new();
    visit_type(&input, &mut o, &vec_ty, BASE, Path::root().field("v"), 10).unwrap();
    // four 8-byte items, each claimed under `.v[i]`, counted for `.v` and the root
    assert_eq!(count(&o.usage, ".v"), Some(32));
    assert_eq!(count(&o.usage, ""), Some(32));
    assert_eq!(o.used_memory.calculate_usage(), 32);
    assert_eq!(count(&o.root_type_counts, "prim64"), Some(4));
}

#[test]
fn visit_stops_at_hashbrown_maps() {
    let mut pool = DebugPool::new();
    add(&mut pool, strukt("u64", 8, vec![], vec![]));
    let marker = add(&mut pool, strukt("core::marker::PhantomData<u64>", 0, vec![], vec![]));
    let table = add(&mut pool, strukt("RawTable", 32, vec![field("marker", 32, marker)], vec![]));
    let map_ty = strukt("hashbrown::map::HashMap<u64, ()>", 48, vec![field("table", 0, table)], vec![]);
    let d = dump(&[0u8; 0x40]);
    let input = Input { debug: &pool, dump: &d };
    let mut o = Output::new();
    assert!(visit_type(&input, &mut o, &map_ty, BASE, Path::root().field("m"), 10).is_err());
}

#[test]
fn visit_follows_owning_and_shared_pointers() {
    let mut pool = DebugPool::new();
    let int = add(&mut pool, Type::Primtive(PrimitiveType { name: "long".to_string(), bits: 64 }));
    let ptr = add(&mut pool, Type::Pointer(int, PointerClass::Bare));
    let head = add(&mut pool, strukt("_Head_base", 8, vec![field("_M_head_impl", 0, ptr)], vec![]));
    let tuple_impl = add(&mut pool, strukt("_Tuple_impl", 8, vec![], vec![(0, int), (0, head)]));
    let tuple = add(&mut pool, strukt("tuple", 8, vec![], vec![(0, tuple_impl)]));
    let inner = add(&mut pool, strukt("__uniq_ptr_impl", 8, vec![field("_M_t", 0, tuple)], vec![]));
    let data = add(&mut pool, strukt("__uniq_ptr_data", 8, vec![], vec![(0, inner)]));
    let uptr = strukt("std::unique_ptr<long>", 8, vec![field("_M_t", 0, data)], vec![]);
    let count_ty = add(&mut pool, Type::Primtive(PrimitiveType { name: "count".to_string(), bits: 64 }));
    let count_ptr = add(&mut pool, Type::Pointer(count_ty, PointerClass::Bare));
    let refcount = add(&mut pool, strukt("__shared_count", 8, vec![field("_M_pi", 0, count_ptr)], vec![]));
    let sbase = add(&mut pool, strukt("__shared_ptr", 16, vec![field("_M_ptr", 0, ptr), field("_M_refcount", 8, refcount)], vec![]));
    let sptr = strukt("std::shared_ptr<long>", 16, vec![], vec![(0, sbase)]);
    let mut mem = vec![0u8; 0x100];
    put(&mut mem, BASE, BASE + 0x80);
    put(&mut mem, BASE + 8, BASE + 0x90);
    let d = dump(&mem);
    let input = Input { debug: &pool, dump: &d };
    // the unique_ptr's target is claimed under `.u.*`
    let mut o = Output::new();
    visit_type(&input, &mut o, &uptr, BASE, Path::root().field("u"), 10).unwrap();
    assert_eq!(count(&o.usage, ".u.*"), Some(8));
    assert_eq!(o.used_memory.calculate_usage(), 16);
    // the shared_ptr's target and count are noted and claimed once
    let mut o = Output::new();
    visit_type(&input, &mut o, &sptr, BASE, Path::root().field("s"), 10).unwrap();
    assert!(o.shared_pointers.contains(&(BASE + 0x80)));
    assert!(o.shared_pointers.contains(&(BASE + 0x90)));
    assert_eq!(count(&o.usage, ".s.data.*"), Some(8));
    assert_eq!(count(&o.usage, ".s.refcount.*"), Some(8));
    visit_type(&input, &mut o, &sptr, BASE, Path::root().field("t"), 10).unwrap();
    assert_eq!(count(&o.usage, ".t"), None);
}

#[test]
fn a_failed_visit_below_a_cpp_unique_ptr_is_ignored() {
    let mut pool = DebugPool::new();
    let int = add(&mut pool, Type::Primtive(PrimitiveType { name: "long".to_string(), bits: 64 }));
    let ptr = add(&mut pool, Type::Pointer(int, PointerClass::Bare));
    // The target is itself a pointer, which the visit must read
    let pptr = add(&mut pool, Type::Pointer(ptr, PointerClass::Bare));
    let head = add(&mut pool, strukt("_Head_base", 8, vec![field("_M_head_impl", 0, pptr)], vec![]));
    let tuple_impl = add(&mut pool, strukt("_Tuple_impl", 8, vec![], vec![(0, int), (0, head)]));
    let tuple = add(&mut pool, strukt("tuple", 8, vec![], vec![(0, tuple_impl)]));
    let inner = add(&mut pool, strukt("__uniq_ptr_impl", 8, vec![field("_M_t", 0, tuple)], vec![]));
    let data = add(&mut pool, strukt("__uniq_ptr_data", 8, vec![], vec![(0, inner)]));
    let uptr = strukt("std::unique_ptr<long*>", 8, vec![field("_M_t", 0, data)], vec![]);
    let mut mem = vec![0u8; 0x100];
    // The target lies outside the dump: reading it fails
    put(&mut mem, BASE, 0x7000_0000);
    let d = dump(&mem);
    let input = Input { debug: &pool, dump: &d };
    let mut o = Output::new();
    assert!(visit_type(&input, &mut o, &uptr, BASE, Path::root().field("u"), 10).is_ok());
    // The target's own claim stays, made before the read failed
    assert_eq!(count(&o.usage, ".u.*"), Some(8));
    // No level left for the target: the pointer alone succeeds
    let mut o = Output::new();
    assert!(visit_type(&input, &mut o, &uptr, BASE, Path::root().field("u"), 1).is_ok());
    assert_eq!(count(&o.usage, ".u.*"), None);
}

#[test]
fn a_plain_struct_is_walked_field_by_field() {
    let mut pool = DebugPool::new();
    let int = add(&mut pool, Type::Primtive(PrimitiveType { name: "long".to_string(), bits: 64 }));
    let ptr = add(&mut pool, Type::Pointer(int, PointerClass::Bare));
    let head = add(&mut pool, strukt("_Head_base", 8, vec![field("_M_head_impl", 0, ptr)], vec![]));
    let tuple_impl = add(&mut pool, strukt("_Tuple_impl", 8, vec![], vec![(0, int), (0, head)]));
    let tuple = add(&mut pool, strukt("tuple", 8, vec![], vec![(0, tuple_impl)]));
    let inner = add(&mut pool, strukt("__uniq_ptr_impl", 8, vec![field("_M_t", 0, tuple)], vec![]));
    let data = add(&mut pool, strukt("__uniq_ptr_data", 8, vec![], vec![(0, inner)]));
    let uptr = add(&mut pool, strukt("std::unique_ptr<long>", 8, vec![field("_M_t", 0, data)], vec![]));
    let base = add(&mut pool, strukt("Base", 8, vec![field("b", 0, uptr)], vec![]));
    // Outer: a parent at 0 holding one owning pointer, then a number and another owning pointer
    let outer = strukt("Outer", 24, vec![field("x", 8, int), field("u", 16, uptr)], vec![(0, base)]);
    let mut mem = vec![0u8; 0x100];
    put(&mut mem, BASE, BASE + 0x80);
    put(&mut mem, BASE + 16, BASE + 0x90);
    let d = dump(&mem);
    let input = Input { debug: &pool, dump: &d };
    let mut o = Output::new();
    visit_type(&input, &mut o, &outer, BASE, Path::root(), 10).unwrap();
    // The root, then each target under its own path
    assert_eq!(count(&o.usage, ""), Some(24 + 8 + 8));
    assert_eq!(count(&o.usage, ".u.*"), Some(8));
    assert_eq!(count(&o.usage, "#0.b.*"), Some(8));
    assert_eq!(o.used_memory.calculate_usage(), 32 + 16 + 16);
}

#[test]
fn a_string_whose_text_cannot_be_read_fails() {
    let pool = DebugPool::new();
    let name = "std::__cxx11::basic_string<char, std::char_traits<char>, std::allocator<char> >";
    let st = strukt(name, 32, vec![], vec![]);
    let mut mem = vec![0u8; 0x100];
    // A heap string of 20 bytes (capacity 30) whose text is in the dump
    put(&mut mem, BASE, BASE + 0x80);
    put(&mut mem, BASE + 8, 20);
    put(&mut mem, BASE + 16, 30);
    // A heap string whose text lies outside the dump
    put(&mut mem, BASE + 0x20, 0x7000_0000);
    put(&mut mem, BASE + 0x28, 20);
    put(&mut mem, BASE + 0x30, 30);
    let d = dump(&mem);
    let input = Input { debug: &pool, dump: &d };
    let mut o = Output::new();
    visit_type(&input, &mut o, &st, BASE, Path::root().field("s"), 10).unwrap();
    assert_eq!(count(&o.usage, ".s.*"), Some(20));
    let mut o = Output::new();
    assert!(visit_type(&input, &mut o, &st, BASE + 0x20, Path::root().field("t"), 10).is_err());
    assert_eq!(count(&o.usage, ".t.*"), None);
}

#[test]
fn visit_claims_map_items() {
    let a = BASE + 0x100;
    let r = BASE + 0x140;
    let b = BASE + 0x180;
    let header = BASE + 8;
    let mut mem = vec![0u8; 0x200];
    put(&mut mem, BASE + 0x28, 3);
    put(&mut mem, header + 8, r);
    put(&mut mem, header + 0x10, a);
    put(&mut mem, a + 8, r);
    put(&mut mem, r + 8, header);
    put(&mut mem, r + 0x10, a);
    put(&mut mem, r + 0x18, b);
    put(&mut mem, b + 8, r);
    let d = dump(&mem);
    let mut pool = DebugPool::new();
    let pair = add(&mut pool, strukt("std::pair<int, int>", 8, vec![], vec![]));
    let mut ct = CompositeType::new("std::map<int, int>".to_string(), 48);
    ct.sub_types.push(("value_type".to_string(), pair));
    let map_ty = Type::Struct(ct);
    let input = Input { debug: &pool, dump: &d };
    let mut o = Output::new();
    visit_type(&input, &mut o, &map_ty, BASE, Path::root().field("m"), 10).unwrap();
    assert_eq!(count(&o.usage, ".m"), Some(24));
    assert_eq!(count(&o.usage, ".m[1]"), Some(8));
    assert_eq!(o.used_memory.calculate_usage(), 48);
    assert_eq!(count(&o.root_type_counts, "std::pair<int, int>"), Some(3));
}

#[test]
fn visit_counts_tagged_union_variants() {
    let mut pool = DebugPool::new();
    let int = add(&mut pool, Type::Primtive(PrimitiveType { name: "int".to_string(), bits: 32 }));
    let long = add(&mut pool, Type::Primtive(PrimitiveType { name: "long".to_string(), bits: 64 }));
    let mut u = CompositeType::new("Data".to_string(), 8);
    u.fields.push(field("A", 0, int));
    u.fields.push(field("B", 0, long));
    let data = add(&mut pool, Type::Union(u));
    let tag = add(&mut pool, Type::Primtive(PrimitiveType { name: "unsigned".to_string(), bits: 32 }));
    let tu = strukt("Value", 24, vec![field("m_tag", 0, tag), field("m_data", 8, data), field("extra", 16, int)], vec![]);
    let mut mem = vec![0u8; 0x40];
    mem[0] = 2;
    mem[0x20] = 1;
    let d = dump(&mem);
    let input = Input { debug: &pool, dump: &d };
    let mut o = Output::new();
    visit_type(&input, &mut o, &tu, BASE, Path::root().field("x"), 10).unwrap();
    visit_type(&input, &mut o, &tu, BASE, Path::root().field("y"), 10).unwrap();
    visit_type(&input, &mut o, &tu, BASE + 0x20, Path::root().field("z"), 10).unwrap();
    assert_eq!(o.enum_variant_counts.len(), 1);
    assert_eq!(o.enum_variant_counts[0].0, "Value");
    assert_eq!(count(&o.enum_variant_counts[0].1, "B"), Some(2));
    assert_eq!(count(&o.enum_variant_counts[0].1, "A"), Some(1));
}
