use memory_analyser::bytes::ElfClass;
use memory_analyser::core_dump::{CoreDump, Segment, PT_LOAD};
use memory_analyser::debug_info::{CompositeField, CompositeType, DebugPool, PointerClass, PrimitiveType, Type, TypeRef};
use memory_analyser::type_handlers::mrustc::{RcString, TaggedUnion, ThinVector};
use memory_analyser::type_handlers::rust::{AllocVec, HashbrownMap};
use memory_analyser::type_handlers::{
    CppMap, CppMapNode, CppSharedPtr, CppString, CppUniquePtr, CppUnorderedMap, CppUnorderedMapNode, CppVector, Input,
    MrustcRcString, MrustcTaggedUnion,
};

const BASE: u64 = 0x10000;

/// A dump whose memory at BASE.. holds `mem`.
fn dump(mem: &[u8]) -> CoreDump {
    let mut file = vec![0u8; 0x40];
    file.extend_from_slice(mem);
    let segs = [Segment { p_type: PT_LOAD, p_offset: 0x40, p_vaddr: BASE, p_memsz: mem.len() as u64 }];
    CoreDump::from_elf(ElfClass::Elf64, &segs, &[], file).unwrap()
}

fn put(mem: &mut Vec<u8>, at: u64, v: u64) {
    let o = (at - BASE) as usize;
    mem[o..o + 8].copy_from_slice(&v.to_le_bytes());
}

fn put32(mem: &mut Vec<u8>, at: u64, v: u32) {
    let o = (at - BASE) as usize;
    mem[o..o + 4].copy_from_slice(&v.to_le_bytes());
}

fn add(pool: &mut DebugPool, t: Type) -> TypeRef {
    let r = TypeRef(pool.types.len());
    pool.types.push(Some(t));
    r
}

fn field(name: &str, offset: u64, ty: TypeRef) -> CompositeField {
    CompositeField { offset, name: name.to_string(), ty }
}

fn strukt(name: &str, size: usize, fields: Vec<CompositeField>, parents: Vec<(u64, TypeRef)>) -> Type {
    let mut ct = CompositeType::new(name.to_string(), size);
    ct.fields = fields;
    ct.parents = parents;
    Type::Struct(ct)
}

fn prim(pool: &mut DebugPool, name: &str, bits: u32) -> TypeRef {
    add(pool, Type::Primtive(PrimitiveType { name: name.to_string(), bits }))
}

fn get(pool: &DebugPool, r: TypeRef) -> &Type {
    pool.get_type(&r)
}

#[test]
fn cpp_string_inline_and_heap() {
    let pool = DebugPool::new();
    let name = "std::__cxx11::basic_string<char, std::char_traits<char>, std::allocator<char> >";
    let ty = strukt(name, 32, vec![], vec![]);
    let mut mem = vec![0u8; 0x80];
    put(&mut mem, BASE, BASE + 0x10);
    put(&mut mem, BASE + 8, 5);
    put(&mut mem, BASE + 0x40, 0x9000);
    put(&mut mem, BASE + 0x48, 100);
    put(&mut mem, BASE + 0x50, 128);
    let d = dump(&mem);
    let input = Input { debug: &pool, dump: &d };
    let s = CppString::opt_read(&input, &ty, BASE).unwrap().unwrap();
    assert_eq!((s.ptr, s.len, s.capacity), (BASE + 0x10, 5, 0));
    let s = CppString::opt_read(&input, &ty, BASE + 0x40).unwrap().unwrap();
    assert_eq!((s.ptr, s.len, s.capacity), (0x9000, 100, 128));
    assert!(CppString::opt_read(&input, &ty, BASE + 0x78).is_err());
    let other = strukt("std::string_view", 16, vec![], vec![]);
    assert!(CppString::opt_read(&input, &other, BASE).unwrap().is_none());
}

#[test]
fn cpp_vector_reads_its_pointers() {
    let mut pool = DebugPool::new();
    let int = prim(&mut pool, "int", 32);
    let ptr = add(&mut pool, Type::Pointer(int, PointerClass::Bare));
    let data = add(&mut pool, strukt("_Vector_impl_data", 24, vec![field("_M_start", 0, ptr)], vec![]));
    let imp = add(&mut pool, strukt("_Vector_impl", 24, vec![], vec![(0, TypeRef(99)), (0, data)]));
    let base = add(&mut pool, strukt("_Vector_base", 24, vec![field("_M_impl", 0, imp)], vec![]));
    let vec_ty = strukt("std::vector<int>", 24, vec![], vec![(0, base)]);
    let mut mem = vec![0u8; 0x20];
    put(&mut mem, BASE, 0x5000);
    put(&mut mem, BASE + 8, 0x5010);
    put(&mut mem, BASE + 16, 0x5020);
    let d = dump(&mem);
    let input = Input { debug: &pool, dump: &d };
    let v = CppVector::opt_read(&input, &vec_ty, BASE).unwrap().unwrap();
    assert_eq!((v.begin, v.end, v.alloc_end), (0x5000, 0x5010, 0x5020));
    assert_eq!(pool.fmt_type(v.item_ty), "prim32");
    // A vector type without the expected layout is refused
    let bad = strukt("std::vector<int>", 24, vec![], vec![]);
    assert!(CppVector::opt_read(&input, &bad, BASE).is_err());
}

#[test]
fn cpp_unique_and_shared_ptr() {
    let mut pool = DebugPool::new();
    let int = prim(&mut pool, "int", 32);
    let ptr = add(&mut pool, Type::Pointer(int, PointerClass::Bare));
    // unique_ptr: _M_t #0 _M_t #0 #1 _M_head_impl
    let head = add(&mut pool, strukt("_Head_base", 8, vec![field("_M_head_impl", 0, ptr)], vec![]));
    let tuple_impl = add(&mut pool, strukt("_Tuple_impl", 8, vec![], vec![(0, TypeRef(0)), (0, head)]));
    let tuple = add(&mut pool, strukt("tuple", 8, vec![], vec![(0, tuple_impl)]));
    let inner = add(&mut pool, strukt("__uniq_ptr_impl", 8, vec![field("_M_t", 0, tuple)], vec![]));
    let data = add(&mut pool, strukt("__uniq_ptr_data", 8, vec![], vec![(0, inner)]));
    let uptr = strukt("std::unique_ptr<int>", 8, vec![field("_M_t", 0, data)], vec![]);
    // shared_ptr: #0 _M_ptr, #0 _M_refcount _M_pi
    let count = prim(&mut pool, "count", 64);
    let count_ptr = add(&mut pool, Type::Pointer(count, PointerClass::Bare));
    let refcount = add(&mut pool, strukt("__shared_count", 8, vec![field("_M_pi", 0, count_ptr)], vec![]));
    let sbase = add(&mut pool, strukt("__shared_ptr", 16, vec![field("_M_ptr", 0, ptr), field("_M_refcount", 8, refcount)], vec![]));
    let sptr = strukt("std::shared_ptr<int>", 16, vec![], vec![(0, sbase)]);
    let mut mem = vec![0u8; 0x20];
    put(&mut mem, BASE, 0x7000);
    put(&mut mem, BASE + 8, 0x8000);
    let d = dump(&mem);
    let input = Input { debug: &pool, dump: &d };
    let u = CppUniquePtr::opt_read(&input, &uptr, BASE).unwrap().unwrap();
    assert_eq!(u.target_addr, 0x7000);
    assert_eq!(pool.fmt_type(u.target_ty), "prim32");
    let s = CppSharedPtr::opt_read(&input, &sptr, BASE).unwrap().unwrap();
    assert_eq!((s.target_addr, s.count_addr), (0x7000, 0x8000));
    assert_eq!(pool.fmt_type(s.count_ty), "prim64");
    assert!(CppUniquePtr::opt_read(&input, &sptr, BASE).unwrap().is_none());
}

#[test]
fn cpp_map_nodes_walk_in_order() {
    // Tree: root R with left child A and right child B; header at BASE + 8.
    let a = BASE + 0x100;
    let r = BASE + 0x140;
    let b = BASE + 0x180;
    let header = BASE + 8;
    let mut mem = vec![0u8; 0x200];
    put(&mut mem, BASE + 0x28, 3);
    put(&mut mem, header + 8, r); // header parent = root
    put(&mut mem, header + 0x10, a); // header left = leftmost
    // node layout: +8 parent, +0x10 left, +0x18 right
    put(&mut mem, a + 8, r);
    put(&mut mem, r + 8, header);
    put(&mut mem, r + 0x10, a);
    put(&mut mem, r + 0x18, b);
    put(&mut mem, b + 8, r);
    let d = dump(&mem);
    let mut pool = DebugPool::new();
    let pair = add(&mut pool, strukt("std::pair<int, int>", 8, vec![], vec![]));
    let mut ct = CompositeType::new("std::map<int, int>".to_string(), 48);
    ct.sub_types.push(("value_type".to_string(), pair));
    let map_ty = Type::Struct(ct);
    let input = Input { debug: &pool, dump: &d };
    let m = CppMap::opt_read(&input, &map_ty, BASE).unwrap().unwrap();
    assert_eq!(m.node_count, 3);
    let n0 = m.cur_node;
    assert_eq!(n0.addr, a);
    assert_eq!(n0.data_addr(), a + 0x20);
    let n1 = n0.next(&d, 100).unwrap();
    assert_eq!(n1.addr, r);
    let n2 = n1.next(&d, 100).unwrap();
    assert_eq!(n2.addr, b);
    assert!(!n2.is_nil());
    let nil = CppMapNode { addr: 0, left_addr: 0, parent_addr: 0, right_addr: 0 };
    assert!(nil.is_nil());
}

#[test]
fn cpp_unordered_map_nodes_follow_links() {
    let mut pool = DebugPool::new();
    let pair = add(&mut pool, strukt("std::pair<const int, int>", 8, vec![], vec![]));
    let storage = add(&mut pool, strukt("aligned", 8, vec![field("__data", 0, TypeRef(0))], vec![]));
    let storage_outer = add(&mut pool, strukt("buffer", 8, vec![field("_M_storage", 0, storage)], vec![]));
    let value_base = add(&mut pool, strukt("_Hash_node_value_base", 8, vec![field("_M_storage", 8, storage_outer)], vec![]));
    let hash_base = add(&mut pool, strukt("_Hash_node_value", 8, vec![], vec![(0, value_base)]));
    let node = add(&mut pool, strukt("_Hash_node", 24, vec![], vec![(0, TypeRef(0)), (0, hash_base)]));
    let node_ptr = add(&mut pool, Type::Pointer(node, PointerClass::Bare));
    let mut hct = CompositeType::new("_Hashtable".to_string(), 56);
    hct.sub_types.push(("__node_ptr".to_string(), node_ptr));
    let ht = add(&mut pool, Type::Struct(hct));
    let mut ct = CompositeType::new("std::unordered_map<int, int>".to_string(), 56);
    ct.sub_types.push(("value_type".to_string(), pair));
    ct.fields.push(field("_M_h", 0, ht));
    let map_ty = Type::Struct(ct);
    let n1 = BASE + 0x100;
    let n2 = BASE + 0x140;
    let mut mem = vec![0u8; 0x200];
    put(&mut mem, BASE + 0x10, n1);
    put(&mut mem, BASE + 0x18, 2);
    put(&mut mem, n1, n2);
    let d = dump(&mem);
    let input = Input { debug: &pool, dump: &d };
    let m = CppUnorderedMap::opt_read(&input, &map_ty, BASE).unwrap().unwrap();
    let first = m.first_node;
    assert_eq!((first.node_addr, first.data_ofs), (n1, 8));
    assert_eq!(first.data_addr(), n1 + 8);
    let second = first.next(&d).unwrap();
    assert_eq!(second.node_addr, n2);
    let end = second.next(&d).unwrap();
    assert!(end.is_nil());
    let nil = CppUnorderedMapNode { node_addr: 0, data_ofs: 8 };
    assert!(nil.is_nil());
}

#[test]
fn tagged_union_variant_by_tag() {
    let mut pool = DebugPool::new();
    let int = prim(&mut pool, "int", 32);
    let long = prim(&mut pool, "long", 64);
    let mut u = CompositeType::new("Data".to_string(), 8);
    u.fields.push(field("A", 0, int));
    u.fields.push(field("B", 0, long));
    let data = add(&mut pool, Type::Union(u));
    let tag = prim(&mut pool, "unsigned", 32);
    let tu = strukt("Value", 24, vec![field("m_tag", 0, tag), field("m_data", 8, data), field("extra", 16, int)], vec![]);
    let mut mem = vec![0u8; 0x40];
    put32(&mut mem, BASE, 2);
    put32(&mut mem, BASE + 0x20, 7);
    let d = dump(&mem);
    let input = Input { debug: &pool, dump: &d };
    let t = TaggedUnion::opt_read(&input, &tu, BASE).unwrap().unwrap();
    assert_eq!(t.data_ofs, 8);
    let (name, ty) = t.variant.unwrap();
    assert_eq!(name, "B");
    assert_eq!(pool.fmt_type(ty), "prim64");
    assert_eq!(t.other_fields.len(), 1);
    assert_eq!(t.data_union.name(), "Data");
    // A tag beyond the variants selects none
    let t = MrustcTaggedUnion::opt_read(&input, &tu, BASE + 0x20).unwrap().unwrap();
    assert!(t.variant.is_none());
    let not_tu = strukt("Other", 8, vec![field("m_tag", 0, tag)], vec![]);
    assert!(TaggedUnion::opt_read(&input, &not_tu, BASE).unwrap().is_none());
}

#[test]
fn rc_string_reads_its_block() {
    let mut pool = DebugPool::new();
    let int = prim(&mut pool, "unsigned", 32);
    let inner = add(&mut pool, strukt("RcString::Inner", 16, vec![field("size", 4, int), field("data", 8, int)], vec![]));
    let ptr = add(&mut pool, Type::Pointer(inner, PointerClass::Bare));
    let rc = strukt("RcString", 8, vec![field("m_ptr", 0, ptr)], vec![]);
    let block = BASE + 0x20;
    let mut mem = vec![0u8; 0x40];
    put(&mut mem, BASE, block);
    put32(&mut mem, block + 4, 11);
    put(&mut mem, BASE + 8, 0);
    put(&mut mem, BASE + 0x10, BASE + 0x38);
    let d = dump(&mem);
    let input = Input { debug: &pool, dump: &d };
    let s = RcString::opt_read(&input, &rc, BASE).unwrap().unwrap();
    assert_eq!((s.data_addr, s.string_ptr, s.string_len), (block, block + 8, 11));
    let s = MrustcRcString::opt_read(&input, &rc, BASE + 8).unwrap().unwrap();
    assert_eq!((s.data_addr, s.string_ptr, s.string_len), (0, 0, 0));
    // The size field is readable as 32 bits but not as 64: only the checked reader refuses it
    assert!(RcString::opt_read(&input, &rc, BASE + 0x10).is_err());
    assert!(MrustcRcString::opt_read(&input, &rc, BASE + 0x10).is_ok());
}

#[test]
fn thin_vector_reads_the_header_before_the_items() {
    let mut pool = DebugPool::new();
    let item = prim(&mut pool, "u32", 32);
    let ptr = add(&mut pool, Type::Pointer(item, PointerClass::Bare));
    let tv = strukt("ThinVector<u32>", 8, vec![field("m_ptr", 0, ptr)], vec![]);
    let items = BASE + 0x30;
    let mut mem = vec![0u8; 0x40];
    put(&mut mem, BASE, items);
    put(&mut mem, items - 16, 3);
    put(&mut mem, items - 8, 4);
    let d = dump(&mem);
    let input = Input { debug: &pool, dump: &d };
    let v = ThinVector::opt_read(&input, &tv, BASE).unwrap().unwrap();
    assert_eq!((v.data_ptr, v.len, v.cap), (items, 3, 4));
    let v = ThinVector::opt_read(&input, &tv, BASE + 8).unwrap().unwrap();
    assert_eq!((v.data_ptr, v.len, v.cap), (0, 0, 0));
}

#[test]
fn alloc_vec_finds_its_item_type_by_name() {
    let mut pool = DebugPool::new();
    let item = add(&mut pool, strukt("my::Item", 12, vec![], vec![]));
    let marker = add(&mut pool, strukt("core::marker::PhantomData<my::Item>", 0, vec![], vec![]));
    let u64t = prim(&mut pool, "usize", 64);
    let inner = add(&mut pool, strukt("RawVecInner", 16, vec![field("ptr", 0, u64t), field("cap", 8, u64t)], vec![]));
    let buf = add(&mut pool, strukt("RawVec", 16, vec![field("inner", 0, inner), field("_marker", 16, marker)], vec![]));
    let vec_ty = strukt("alloc::vec::Vec<my::Item>", 24, vec![field("buf", 0, buf), field("len", 16, u64t)], vec![]);
    let mut mem = vec![0u8; 0x20];
    put(&mut mem, BASE, 0x9000);
    put(&mut mem, BASE + 8, 4);
    put(&mut mem, BASE + 16, 2);
    let d = dump(&mem);
    let input = Input { debug: &pool, dump: &d };
    let v = AllocVec::opt_read(&input, &vec_ty, BASE).unwrap().unwrap();
    assert_eq!((v.begin, v.end, v.alloc_end), (0x9000, 0x9000 + 24, 0x9000 + 48));
    assert_eq!(pool.fmt_type(v.item_ty), "my::Item");
    let _ = get(&pool, item);
}

#[test]
fn hashbrown_map_finds_its_item_type_by_name() {
    let mut pool = DebugPool::new();
    add(&mut pool, strukt("(u32, my::Item)", 16, vec![], vec![]));
    let marker = add(&mut pool, strukt("core::marker::PhantomData<(u32, my::Item)>", 0, vec![], vec![]));
    let table = add(&mut pool, strukt("RawTable", 32, vec![field("marker", 32, marker)], vec![]));
    let map_ty = strukt("hashbrown::map::HashMap<u32, my::Item>", 48, vec![field("table", 0, table)], vec![]);
    let d = dump(&[0u8; 0x10]);
    let input = Input { debug: &pool, dump: &d };
    let m = HashbrownMap::opt_read(&input, &map_ty, BASE).unwrap().unwrap();
    assert_eq!(pool.fmt_type(m.item_ty), "(u32, my::Item)");
    // another struct is not a hashbrown map
    let other = strukt("my::Other", 8, vec![], vec![]);
    assert!(HashbrownMap::opt_read(&input, &other, BASE).unwrap().is_none());
    // a map whose item type is not known
    let bad_marker = add(&mut pool, strukt("core::marker::PhantomData<missing>", 0, vec![], vec![]));
    let bad_table = add(&mut pool, strukt("RawTable", 32, vec![field("marker", 32, bad_marker)], vec![]));
    let bad = strukt("hashbrown::map::HashMap<u32, missing>", 48, vec![field("table", 0, bad_table)], vec![]);
    let input = Input { debug: &pool, dump: &d };
    assert!(HashbrownMap::opt_read(&input, &bad, BASE).is_err());
}
