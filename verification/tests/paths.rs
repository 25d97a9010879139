use memory_analyser::debug_info::{CompositeField, CompositeType, DebugPool, PrimitiveType, Type, TypeRef};
use memory_analyser::visit_helpers::{get_field, Path};

#[test]
fn path_text_lists_steps_in_order() {
    let p = Path::root().field("crate").field("m_items").index(3).deref().parent(1);
    assert_eq!(p.to_string(), ".crate.m_items[3].*#1");
    assert_eq!(p.len(), 5);
}

#[test]
fn root_path_is_empty() {
    let p = Path::root();
    assert_eq!(p.len(), 0);
    assert_eq!(p.to_string(), "");
    assert!(p.is_root_or_deref());
    assert!(p.get_parent().is_none());
}

#[test]
fn prefixes_and_parents() {
    let p = Path::root().field("a").index(1).deref().field("b");
    let q = p.get_prefix(2);
    assert_eq!(q.to_string(), ".a[1]");
    assert!(p.to_string().starts_with(&q.to_string()));
    assert_eq!(p.get_prefix(10).to_string(), p.to_string());
    let parent = p.get_parent().unwrap();
    assert_eq!(parent.to_string(), ".a[1].*");
    assert!(parent.is_root_or_deref());
    assert!(!p.is_root_or_deref());
    assert!(Path::root().field("x").get_parent().is_none());
}

#[test]
fn the_offset_of_a_path_adds_up_its_steps() {
    let mut pool = DebugPool::new();
    let int = TypeRef(pool.types.len());
    pool.types.push(Some(Type::Primtive(PrimitiveType { name: "int".to_string(), bits: 32 })));
    let mut inner = CompositeType::new("Inner".to_string(), 16);
    inner.fields.push(CompositeField { offset: 8, name: "y".to_string(), ty: int });
    let inner_ref = TypeRef(pool.types.len());
    pool.types.push(Some(Type::Struct(inner)));
    let alias = TypeRef(pool.types.len());
    pool.types.push(Some(Type::Alias(inner_ref)));
    let mut outer = CompositeType::new("Outer".to_string(), 32);
    outer.fields.push(CompositeField { offset: 16, name: "i".to_string(), ty: alias });
    outer.parents.push((4, inner_ref));
    let outer = Type::Struct(outer);
    // Through an alias, a field step adds its offset to its prefix's
    assert_eq!(get_field(&pool, &outer, &Path::root().field("i")), Some((16, alias)));
    assert_eq!(get_field(&pool, &outer, &Path::root().field("i").field("y")), Some((24, int)));
    assert_eq!(get_field(&pool, &outer, &Path::root().parent(0).field("y")), Some((12, int)));
    // The alias itself is transparent
    let a = Type::Alias(inner_ref);
    assert_eq!(get_field(&pool, &a, &Path::root().field("y")), Some((8, int)));
}
