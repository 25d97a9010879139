//! Recognisers for well-known container and smart-pointer types of the C++ standard
//! library, read from a dump with the help of the debug information.
//!
//! Each `opt_read` gives `Ok(None)` for a type it does not recognise, and `Err` when the
//! type is recognised but the value cannot be read: a memory read fails, or the debug
//! information does not have the layout the library is known to use.
use vstd::prelude::*;
use vstd::bytes::{spec_u32_from_le_bytes, spec_u64_from_le_bytes};
use crate::core_dump::{CoreDump, ReadError, spec_read};
use crate::debug_info::{CompositeField, CompositeType, DebugPool, Type, TypeRef};
use crate::named::{index_of_name, lemma_index_of_name, position_of_name};
use crate::text::{spec_starts_with, str_eq, str_starts_with};
use crate::visit_helpers::{Path, PathStep, field_walk, get_field, resolve_alias_chain, resolved};

pub mod mrustc;
pub mod rust;
use self::mrustc::{read_rc_string, read_tagged_union, rc_string_at, tagged_union_at};

verus! {

/// What the visitor reads from: the debug information and the dump
pub struct Input<'a> {
    pub debug: &'a DebugPool,
    pub dump: &'a CoreDump,
}

/// The type that `tr` names, with its alias chain resolved.
pub open spec fn ref_resolved(p: DebugPool, tr: TypeRef) -> Option<Type> {
    match p.spec_type(tr) {
        Some(t) => resolved(p, t),
        None => None,
    }
}

/// The target of the pointer type that `tr` names (after aliases).
pub open spec fn pointee(p: DebugPool, tr: TypeRef) -> Option<TypeRef> {
    match ref_resolved(p, tr) {
        Some(Type::Pointer(i, _)) => Some(i),
        _ => None,
    }
}

/// `a + o` when it fits in 64 bits.
pub open spec fn addr_add(a: u64, o: u64) -> Option<u64> {
    if a + o <= u64::MAX { Some((a + o) as u64) } else { None }
}

/// The little-endian 64-bit word of the dumped process at `a + o`.
pub open spec fn word_at(d: CoreDump, a: u64, o: u64) -> Option<u64> {
    match addr_add(a, o) {
        Some(x) => match spec_read(d, x, 8) {
            Some(b) => Some(spec_u64_from_le_bytes(b)),
            None => None,
        },
        None => None,
    }
}

/// The little-endian 32-bit word of the dumped process at `a + o`.
pub open spec fn u32_at(d: CoreDump, a: u64, o: u64) -> Option<u32> {
    match addr_add(a, o) {
        Some(x) => match spec_read(d, x, 4) {
            Some(b) => Some(spec_u32_from_le_bytes(b)),
            None => None,
        },
        None => None,
    }
}

/// The offset that `steps` lead to in `t`.
pub open spec fn field_offset(p: DebugPool, t: Type, steps: Seq<PathStep>) -> Option<u64> {
    match field_walk(p, t, steps) {
        Some((o, _)) => Some(o),
        None => None,
    }
}

/// The type that `steps` lead to in `t`, resolved, when it is a pointer: the type it points
/// to, resolved.
pub open spec fn field_pointee(p: DebugPool, t: Type, steps: Seq<PathStep>) -> Option<Type> {
    match field_walk(p, t, steps) {
        Some((_, tr)) => match pointee(p, tr) {
            Some(i) => ref_resolved(p, i),
            None => None,
        },
        None => None,
    }
}

impl<'a> Input<'a> {
    pub fn resolve_alias_chain_tr(&self, ty: &TypeRef) -> (r: Option<&'a Type>)
        ensures
            match ref_resolved(*self.debug, *ty) {
                Some(t) => r matches Some(x) && *x == t,
                None => r is None,
            },
    {
        match self.debug.try_get_type(ty) {
            Some(t) => resolve_alias_chain(self.debug, t),
            None => None,
        }
    }

    pub fn resolve_alias_chain(&self, ty: &'a Type) -> (r: Option<&'a Type>)
        ensures
            match resolved(*self.debug, *ty) {
                Some(t) => r matches Some(x) && *x == t,
                None => r is None,
            },
    {
        resolve_alias_chain(self.debug, ty)
    }

    pub fn get_field(&self, ty: &Type, path: Path) -> (r: Option<(u64, TypeRef)>)
        ensures
            r == field_walk(*self.debug, *ty, path@),
    {
        get_field(self.debug, ty, &path)
    }

    /// The target of the pointer type that `ty` names.
    fn pointee(&self, ty: &TypeRef) -> (r: Option<TypeRef>)
        ensures
            r == pointee(*self.debug, *ty),
    {
        match self.resolve_alias_chain_tr(ty) {
            Some(Type::Pointer(i, _)) => Some(*i),
            _ => None,
        }
    }

    /// The resolved target type of the pointer that `path` leads to in `ty`.
    fn field_pointee(&self, ty: &Type, path: Path) -> (r: Option<&'a Type>)
        ensures
            match field_pointee(*self.debug, *ty, path@) {
                Some(t) => r matches Some(x) && *x == t,
                None => r is None,
            },
    {
        match self.get_field(ty, path) {
            Some((_, tr)) => match self.pointee(&tr) {
                Some(i) => self.resolve_alias_chain_tr(&i),
                None => None,
            },
            None => None,
        }
    }

    /// The 64-bit word at `addr + ofs`.
    fn word_at(&self, addr: u64, ofs: u64) -> (r: Result<u64, ReadError>)
        ensures
            match word_at(*self.dump, addr, ofs) {
                Some(v) => r == Ok::<u64, ReadError>(v),
                None => r is Err,
            },
    {
        if ofs > u64::MAX - addr {
            return Err(());
        }
        self.dump.read_ptr(addr + ofs)
    }

    /// The 32-bit word at `addr + ofs`.
    fn u32_at(&self, addr: u64, ofs: u64) -> (r: Result<u32, ReadError>)
        ensures
            match u32_at(*self.dump, addr, ofs) {
                Some(v) => r == Ok::<u32, ReadError>(v),
                None => r is Err,
            },
    {
        if ofs > u64::MAX - addr {
            return Err(());
        }
        self.dump.read_u32(addr + ofs)
    }
}

/// The struct type `ty`, when its name begins with `prefix`.
fn struct_with_prefix<'t>(ty: &'t Type, prefix: &str) -> (r: Option<&'t CompositeType>)
    ensures
        match *ty {
            Type::Struct(ct) => if spec_starts_with(ct.name@, prefix@) {
                r matches Some(x) && *x == ct
            } else {
                r is None
            },
            _ => r is None,
        },
{
    match ty {
        Type::Struct(ct) => {
            if str_starts_with(ct.name.as_str(), prefix) {
                Some(ct)
            } else {
                None
            }
        },
        _ => None,
    }
}

// ---------------------------------------------------------------------------
// std::unique_ptr

pub struct CppUniquePtr<'d> {
    pub target_addr: u64,
    pub target_ty: &'d Type,
}

pub open spec fn unique_ptr_path() -> Seq<PathStep> {
    seq![
        PathStep::Field("_M_t"@), PathStep::Parent(0), PathStep::Field("_M_t"@),
        PathStep::Parent(0), PathStep::Parent(1), PathStep::Field("_M_head_impl"@),
    ]
}

/// A `std::unique_ptr` at `addr`: the address it holds and the type it points to.
pub open spec fn unique_ptr_at(p: DebugPool, d: CoreDump, ty: Type, addr: u64) -> Result<Option<(u64, Type)>, ()> {
    match ty {
        Type::Struct(ct) => if !spec_starts_with(ct.name@, "std::unique_ptr<"@) {
            Ok(None)
        } else {
            match (field_offset(p, ty, unique_ptr_path()), field_pointee(p, ty, unique_ptr_path())) {
                (Some(o), Some(target)) => match word_at(d, addr, o) {
                    Some(v) => Ok(Some((v, target))),
                    None => Err(()),
                },
                _ => Err(()),
            }
        },
        _ => Ok(None),
    }
}

impl<'d> CppUniquePtr<'d> {
    pub fn opt_read(input: &Input<'d>, ty: &Type, addr: u64) -> (r: Result<Option<Self>, ReadError>)
        ensures
            match unique_ptr_at(*input.debug, *input.dump, *ty, addr) {
                Err(_) => r is Err,
                Ok(None) => r matches Ok(None),
                Ok(Some((a, t))) => r matches Ok(Some(x)) && x.target_addr == a && *x.target_ty == t,
            },
    {
        if struct_with_prefix(ty, "std::unique_ptr<").is_none() {
            return Ok(None);
        }
        let path = Path::root().field("_M_t").parent(0).field("_M_t").parent(0).parent(1).field("_M_head_impl");
        assert(path@ =~= unique_ptr_path());
        let o = match input.get_field(ty, Path::root().field("_M_t").parent(0).field("_M_t").parent(0).parent(1).field("_M_head_impl")) {
            Some((o, _)) => o,
            None => {
                return Err(());
            },
        };
        let target = match input.field_pointee(ty, path) {
            Some(t) => t,
            None => {
                return Err(());
            },
        };
        let v = input.word_at(addr, o)?;
        Ok(Some(CppUniquePtr { target_addr: v, target_ty: target }))
    }
}

// ---------------------------------------------------------------------------
// std::shared_ptr

pub struct CppSharedPtr<'d> {
    pub target_addr: u64,
    pub target_ty: &'d Type,
    pub count_addr: u64,
    pub count_ty: &'d Type,
}

pub open spec fn shared_ptr_path() -> Seq<PathStep> {
    seq![PathStep::Parent(0), PathStep::Field("_M_ptr"@)]
}

pub open spec fn shared_count_path() -> Seq<PathStep> {
    seq![PathStep::Parent(0), PathStep::Field("_M_refcount"@), PathStep::Field("_M_pi"@)]
}

/// A `std::shared_ptr` at `addr`: the address and type of its target, and those of its
/// reference count.
pub open spec fn shared_ptr_at(p: DebugPool, d: CoreDump, ty: Type, addr: u64) -> Result<Option<(u64, Type, u64, Type)>, ()> {
    match ty {
        Type::Struct(ct) => if !spec_starts_with(ct.name@, "std::shared_ptr<"@) {
            Ok(None)
        } else {
            match (field_offset(p, ty, shared_ptr_path()), field_pointee(p, ty, shared_ptr_path()),
                field_offset(p, ty, shared_count_path()), field_pointee(p, ty, shared_count_path())) {
                (Some(po), Some(pt), Some(co), Some(ct2)) => match (word_at(d, addr, po), word_at(d, addr, co)) {
                    (Some(pv), Some(cv)) => Ok(Some((pv, pt, cv, ct2))),
                    _ => Err(()),
                },
                _ => Err(()),
            }
        },
        _ => Ok(None),
    }
}

impl<'d> CppSharedPtr<'d> {
    pub fn opt_read(input: &Input<'d>, ty: &Type, addr: u64) -> (r: Result<Option<Self>, ReadError>)
        ensures
            match shared_ptr_at(*input.debug, *input.dump, *ty, addr) {
                Err(_) => r is Err,
                Ok(None) => r matches Ok(None),
                Ok(Some((a, t, c, ct))) => r matches Ok(Some(x)) && x.target_addr == a && *x.target_ty == t
                    && x.count_addr == c && *x.count_ty == ct,
            },
    {
        if struct_with_prefix(ty, "std::shared_ptr<").is_none() {
            return Ok(None);
        }
        let p1 = Path::root().parent(0).field("_M_ptr");
        let p2 = Path::root().parent(0).field("_M_ptr");
        let c1 = Path::root().parent(0).field("_M_refcount").field("_M_pi");
        let c2 = Path::root().parent(0).field("_M_refcount").field("_M_pi");
        assert(p1@ =~= shared_ptr_path() && p2@ =~= shared_ptr_path());
        assert(c1@ =~= shared_count_path() && c2@ =~= shared_count_path());
        let (po, pt, co, ct) = match (input.get_field(ty, p1), input.field_pointee(ty, p2), input.get_field(ty, c1), input.field_pointee(ty, c2)) {
            (Some((po, _)), Some(pt), Some((co, _)), Some(ct)) => (po, pt, co, ct),
            _ => {
                return Err(());
            },
        };
        let pv = input.word_at(addr, po)?;
        let cv = input.word_at(addr, co)?;
        Ok(Some(CppSharedPtr { target_addr: pv, target_ty: pt, count_addr: cv, count_ty: ct }))
    }
}

// ---------------------------------------------------------------------------
// std::vector

pub struct CppVector<'d> {
    pub begin: u64,
    pub end: u64,
    pub alloc_end: u64,
    pub item_ty: &'d Type,
}

pub open spec fn vector_start_path() -> Seq<PathStep> {
    seq![PathStep::Parent(0), PathStep::Field("_M_impl"@), PathStep::Parent(1), PathStep::Field("_M_start"@)]
}

/// A `std::vector` at `addr`: its three pointers (begin, end, end of allocation) and the
/// type of its items.
pub open spec fn vector_at(p: DebugPool, d: CoreDump, ty: Type, addr: u64) -> Result<Option<(u64, u64, u64, Type)>, ()> {
    match ty {
        Type::Struct(ct) => if !spec_starts_with(ct.name@, "std::vector<"@) {
            Ok(None)
        } else {
            match field_walk(p, ty, vector_start_path()) {
                Some((_, tr)) => match pointee(p, tr) {
                    Some(i) => match p.spec_type(i) {
                        Some(item) => match (word_at(d, addr, 0), word_at(d, addr, 8), word_at(d, addr, 16)) {
                            (Some(b), Some(e), Some(a)) => Ok(Some((b, e, a, item))),
                            _ => Err(()),
                        },
                        None => Err(()),
                    },
                    None => Err(()),
                },
                None => Err(()),
            }
        },
        _ => Ok(None),
    }
}

impl<'d> CppVector<'d> {
    pub fn opt_read(input: &Input<'d>, ty: &Type, addr: u64) -> (r: Result<Option<Self>, ReadError>)
        ensures
            match vector_at(*input.debug, *input.dump, *ty, addr) {
                Err(_) => r is Err,
                Ok(None) => r matches Ok(None),
                Ok(Some((b, e, a, t))) => r matches Ok(Some(x)) && x.begin == b && x.end == e
                    && x.alloc_end == a && *x.item_ty == t,
            },
    {
        if struct_with_prefix(ty, "std::vector<").is_none() {
            return Ok(None);
        }
        let path = Path::root().parent(0).field("_M_impl").parent(1).field("_M_start");
        assert(path@ =~= vector_start_path());
        let item: &'d Type = match input.get_field(ty, path) {
            Some((_, tr)) => match input.pointee(&tr) {
                Some(i) => match input.debug.try_get_type(&i) {
                    Some(t) => t,
                    None => {
                        return Err(());
                    },
                },
                None => {
                    return Err(());
                },
            },
            None => {
                return Err(());
            },
        };
        let begin = input.word_at(addr, 0)?;
        let end = input.word_at(addr, 8)?;
        let alloc_end = input.word_at(addr, 16)?;
        Ok(Some(CppVector { begin, end, alloc_end, item_ty: item }))
    }
}

// ---------------------------------------------------------------------------
// std::string

pub struct CppString {
    pub ptr: u64,
    pub len: u64,
    /// If zero, the string buffer is stored in the `std::string` itself
    pub capacity: u64,
}

/// A `std::string` at `addr`: its data pointer, its length, and its capacity (zero when
/// the data pointer points into the string itself, at offset 16).
pub open spec fn string_at(d: CoreDump, ty: Type, addr: u64) -> Result<Option<(u64, u64, u64)>, ()> {
    match ty {
        Type::Struct(ct) => if ct.name@ != "std::__cxx11::basic_string<char, std::char_traits<char>, std::allocator<char> >"@ {
            Ok(None)
        } else {
            match (word_at(d, addr, 0), word_at(d, addr, 8)) {
                (Some(ptr), Some(len)) => if addr_add(addr, 16) == Some(ptr) {
                    Ok(Some((ptr, len, 0)))
                } else {
                    match word_at(d, addr, 16) {
                        Some(cap) => Ok(Some((ptr, len, cap))),
                        None => Err(()),
                    }
                },
                _ => Err(()),
            }
        },
        _ => Ok(None),
    }
}

impl CppString {
    pub fn opt_read(input: &Input, ty: &Type, addr: u64) -> (r: Result<Option<Self>, ReadError>)
        ensures
            match string_at(*input.dump, *ty, addr) {
                Err(_) => r is Err,
                Ok(None) => r matches Ok(None),
                Ok(Some((p, l, c))) => r matches Ok(Some(x)) && x.ptr == p && x.len == l && x.capacity == c,
            },
    {
        match ty {
            Type::Struct(ct) => {
                if !str_eq(ct.name.as_str(), "std::__cxx11::basic_string<char, std::char_traits<char>, std::allocator<char> >") {
                    return Ok(None);
                }
            },
            _ => {
                return Ok(None);
            },
        }
        let ptr = input.word_at(addr, 0)?;
        let len = input.word_at(addr, 8)?;
        let capacity = if addr <= u64::MAX - 16 && ptr == addr + 16 {
            // Use 0 as a sentinel for inline storage
            0
        } else {
            input.word_at(addr, 16)?
        };
        Ok(Some(CppString { ptr, len, capacity }))
    }
}

/// The type declared inside `ct` under `name`.
pub open spec fn sub_type(ct: CompositeType, name: Seq<char>) -> Option<TypeRef> {
    match index_of_name(ct.sub_types@, name) {
        Some(i) => Some(ct.sub_types@[i].1),
        None => None,
    }
}

fn sub_type_exec(ct: &CompositeType, name: &str) -> (r: Option<TypeRef>)
    ensures
        r == sub_type(*ct, name@),
{
    proof { lemma_index_of_name(ct.sub_types@, name@); }
    match position_of_name(&ct.sub_types, name) {
        Some(i) => Some(ct.sub_types[i].1),
        None => None,
    }
}

// ---------------------------------------------------------------------------
// std::map

/// A node of the red-black tree of a `std::map` (the nil node has address zero)
#[derive(Clone, Copy, Debug)]
pub struct CppMapNode {
    pub addr: u64,
    pub left_addr: u64,
    pub parent_addr: u64,
    pub right_addr: u64,
}

/// The tree node at `addr`: its parent, left and right links at offsets 8, 16 and 24.
pub open spec fn map_node_at(d: CoreDump, addr: u64) -> Option<CppMapNode> {
    if addr == 0 {
        Some(CppMapNode { addr: 0, left_addr: 0, parent_addr: 0, right_addr: 0 })
    } else {
        match (word_at(d, addr, 0x8), word_at(d, addr, 0x10), word_at(d, addr, 0x18)) {
            (Some(pa), Some(l), Some(r)) => Some(CppMapNode { addr, left_addr: l, parent_addr: pa, right_addr: r }),
            _ => None,
        }
    }
}

/// The leftmost node below `n`, following at most `fuel` left links.
pub open spec fn leftmost(d: CoreDump, n: CppMapNode, fuel: nat) -> Option<CppMapNode>
    decreases fuel,
{
    if n.left_addr == 0 {
        Some(n)
    } else if fuel == 0 {
        None
    } else {
        match map_node_at(d, n.left_addr) {
            Some(m) => leftmost(d, m, (fuel - 1) as nat),
            None => None,
        }
    }
}

/// Climbs from `cur` (a child of `p`) while `cur` is the right child of its parent,
/// following at most `fuel` parent links.
pub open spec fn climb(d: CoreDump, cur: CppMapNode, p: CppMapNode, fuel: nat) -> Option<(CppMapNode, CppMapNode)>
    decreases fuel,
{
    if cur.addr != p.right_addr {
        Some((cur, p))
    } else if fuel == 0 {
        None
    } else {
        match map_node_at(d, p.parent_addr) {
            Some(pp) => climb(d, p, pp, (fuel - 1) as nat),
            None => None,
        }
    }
}

/// The in-order successor of `n`, as `_Rb_tree_increment` finds it, taking at most `fuel`
/// steps along each chain of links.
pub open spec fn map_node_next(d: CoreDump, n: CppMapNode, fuel: nat) -> Option<CppMapNode> {
    if n.right_addr != 0 {
        match map_node_at(d, n.right_addr) {
            Some(r) => leftmost(d, r, fuel),
            None => None,
        }
    } else {
        match map_node_at(d, n.parent_addr) {
            Some(p) => match climb(d, n, p, fuel) {
                Some((c, p2)) => Some(if c.right_addr != p2.addr { p2 } else { c }),
                None => None,
            },
            None => None,
        }
    }
}

/// The node reached from `n` by following `k` left links, each read from the dump.
pub open spec fn left_descendant(d: CoreDump, n: CppMapNode, k: nat) -> Option<CppMapNode>
    decreases k,
{
    if k == 0 {
        Some(n)
    } else {
        match map_node_at(d, n.left_addr) {
            Some(m) => left_descendant(d, m, (k - 1) as nat),
            None => None,
        }
    }
}

proof fn lemma_leftmost_chain(d: CoreDump, r: CppMapNode, fuel: nat) -> (k: nat)
    requires
        leftmost(d, r, fuel) is Some,
    ensures
        k <= fuel,
        left_descendant(d, r, k) == leftmost(d, r, fuel),
        leftmost(d, r, fuel)->Some_0.left_addr == 0,
        forall|i: nat| i < k ==> (#[trigger] left_descendant(d, r, i) matches Some(x) && x.left_addr != 0),
    decreases fuel,
{
    if r.left_addr == 0 {
        0
    } else {
        let x = map_node_at(d, r.left_addr)->Some_0;
        let k1 = lemma_leftmost_chain(d, x, (fuel - 1) as nat);
        assert(left_descendant(d, r, k1 + 1) == left_descendant(d, x, k1));
        assert forall|i: nat| i < k1 + 1 implies (#[trigger] left_descendant(d, r, i) matches Some(y) && y.left_addr != 0) by {
            if i > 0 {
                assert(left_descendant(d, r, i) == left_descendant(d, x, (i - 1) as nat));
                assert(left_descendant(d, x, (i - 1) as nat) matches Some(y) && y.left_addr != 0);
            }
        }
        k1 + 1
    }
}

/// The in-order successor of a node with a right child is the leftmost node of its right
/// subtree: reading the right child and following left links, the successor is the first
/// node reached that has no left child (every node before it on the way has one).
pub proof fn law_successor_in_right_subtree(d: CoreDump, n: CppMapNode, fuel: nat)
    requires
        n.right_addr != 0,
        map_node_next(d, n, fuel) is Some,
    ensures
        map_node_at(d, n.right_addr) is Some,
        map_node_next(d, n, fuel)->Some_0.left_addr == 0,
        exists|k: nat| k <= fuel
            && #[trigger] left_descendant(d, map_node_at(d, n.right_addr)->Some_0, k) == map_node_next(d, n, fuel)
            && forall|i: nat| i < k ==> (#[trigger] left_descendant(d, map_node_at(d, n.right_addr)->Some_0, i) matches Some(x)
                && x.left_addr != 0),
{
    let r = map_node_at(d, n.right_addr)->Some_0;
    let k = lemma_leftmost_chain(d, r, fuel);
    assert(left_descendant(d, r, k) == map_node_next(d, n, fuel));
}

/// The node reached from `n` by following `k` parent links, each read from the dump.
pub open spec fn ancestor(d: CoreDump, n: CppMapNode, k: nat) -> Option<CppMapNode>
    decreases k,
{
    if k == 0 {
        Some(n)
    } else {
        match ancestor(d, n, (k - 1) as nat) {
            Some(a) => map_node_at(d, a.parent_addr),
            None => None,
        }
    }
}

/// Ancestors `1 .. k` of `n` are each reached from the right: ancestor `i - 1` is the right
/// child of ancestor `i`.
pub open spec fn climbs_from_right(d: CoreDump, n: CppMapNode, k: nat) -> bool {
    forall|i: nat| 1 <= i < k ==> (#[trigger] ancestor(d, n, i) matches Some(a)
        && ancestor(d, n, (i - 1) as nat) matches Some(c) && c.addr == a.right_addr)
}

proof fn lemma_climb_chain(d: CoreDump, n: CppMapNode, cur: CppMapNode, p: CppMapNode, j: nat, fuel: nat) -> (k: nat)
    requires
        ancestor(d, n, j) == Some(cur),
        ancestor(d, n, j + 1) == Some(p),
        climbs_from_right(d, n, j + 1),
        climb(d, cur, p, fuel) is Some,
    ensures
        j + 1 <= k,
        ancestor(d, n, (k - 1) as nat) == Some(climb(d, cur, p, fuel)->Some_0.0),
        ancestor(d, n, k) == Some(climb(d, cur, p, fuel)->Some_0.1),
        climbs_from_right(d, n, k),
        climb(d, cur, p, fuel)->Some_0.0.addr != climb(d, cur, p, fuel)->Some_0.1.right_addr,
    decreases fuel,
{
    if cur.addr != p.right_addr {
        j + 1
    } else {
        let pp = map_node_at(d, p.parent_addr)->Some_0;
        assert(ancestor(d, n, j + 2) == Some(pp));
        assert forall|i: nat| 1 <= i < j + 2 implies (#[trigger] ancestor(d, n, i) matches Some(a)
            && ancestor(d, n, (i - 1) as nat) matches Some(c) && c.addr == a.right_addr) by {
            if i < j + 1 {
                assert(climbs_from_right(d, n, j + 1));
            } else {
                assert(i == j + 1);
                assert(((i - 1) as nat) == j);
            }
        }
        lemma_climb_chain(d, n, p, pp, j + 1, (fuel - 1) as nat)
    }
}

/// The climb from `n` ends at ancestor `k`, reached from the left (ancestor `k - 1` is not
/// its right child), and gives `m`: that ancestor, or the node climbed from where its right
/// link is that ancestor (the tree's header).
pub open spec fn climb_ends(d: CoreDump, n: CppMapNode, k: nat, m: Option<CppMapNode>) -> bool {
    match (ancestor(d, n, k), ancestor(d, n, (k - 1) as nat)) {
        (Some(a), Some(c)) => c.addr != a.right_addr && m == Some(if c.right_addr != a.addr { a } else { c }),
        _ => false,
    }
}

/// The in-order successor of a node without a right child is found by climbing: through
/// the ancestors reached from the right, up to the first ancestor reached from the left;
/// that ancestor is the successor (unless the climb ends at the tree's header, whose right
/// link is the node climbed from: then the successor is that node).
pub proof fn law_successor_above(d: CoreDump, n: CppMapNode, fuel: nat)
    requires
        n.right_addr == 0,
        map_node_next(d, n, fuel) is Some,
    ensures
        exists|k: nat| 1 <= k && climbs_from_right(d, n, k) && #[trigger] climb_ends(d, n, k, map_node_next(d, n, fuel)),
{
    let p = map_node_at(d, n.parent_addr)->Some_0;
    assert(ancestor(d, n, 0) == Some(n));
    assert(ancestor(d, n, 1) == Some(p));
    assert(climbs_from_right(d, n, 1));
    let k = lemma_climb_chain(d, n, n, p, 0, fuel);
    assert(climb_ends(d, n, k, map_node_next(d, n, fuel)));
}

impl CppMapNode {
    fn read(dump: &CoreDump, addr: u64) -> (r: Result<Self, ReadError>)
        ensures
            match map_node_at(*dump, addr) {
                Some(n) => r == Ok::<CppMapNode, ReadError>(n),
                None => r is Err,
            },
    {
        if addr == 0 {
            return Ok(CppMapNode { addr, left_addr: 0, parent_addr: 0, right_addr: 0 });
        }
        let input_words = (word_at_exec(dump, addr, 0x8), word_at_exec(dump, addr, 0x10), word_at_exec(dump, addr, 0x18));
        match input_words {
            (Ok(parent_addr), Ok(left_addr), Ok(right_addr)) => Ok(CppMapNode { addr, left_addr, parent_addr, right_addr }),
            _ => Err(()),
        }
    }

    pub fn is_nil(&self) -> (b: bool)
        ensures
            b == (self.addr == 0),
    {
        self.addr == 0
    }

    /// The address of the value stored in the node (after its header)
    pub fn data_addr(&self) -> (r: u64)
        requires
            self.addr + 0x20 <= u64::MAX,
        ensures
            r == self.addr + 0x20,
    {
        self.addr + 0x20
    }

    /// The in-order successor of this node (see `map_node_next`), following at most
    /// `max_steps` links along each chain; `Err` when a read fails or a chain is longer.
    pub fn next(&self, dump: &CoreDump, max_steps: u64) -> (r: Result<Self, ReadError>)
        ensures
            match map_node_next(*dump, *self, max_steps as nat) {
                Some(n) => r == Ok::<CppMapNode, ReadError>(n),
                None => r is Err,
            },
    {
        if self.right_addr != 0 {
            let mut cur = CppMapNode::read(dump, self.right_addr)?;
            let mut fuel = max_steps;
            while cur.left_addr != 0
                invariant
                    leftmost(*dump, cur, fuel as nat) == map_node_next(*dump, *self, max_steps as nat),
                decreases fuel,
            {
                if fuel == 0 {
                    return Err(());
                }
                cur = CppMapNode::read(dump, cur.left_addr)?;
                fuel = fuel - 1;
            }
            Ok(cur)
        } else {
            let mut cur = *self;
            let mut p = CppMapNode::read(dump, self.parent_addr)?;
            let mut fuel = max_steps;
            while cur.addr == p.right_addr
                invariant
                    map_node_at(*dump, self.parent_addr) is Some,
                    self.right_addr == 0,
                    climb(*dump, cur, p, fuel as nat) == climb(*dump, *self, map_node_at(*dump, self.parent_addr)->Some_0, max_steps as nat),
                decreases fuel,
            {
                if fuel == 0 {
                    return Err(());
                }
                let pa = p.parent_addr;
                cur = p;
                p = CppMapNode::read(dump, pa)?;
                fuel = fuel - 1;
            }
            if cur.right_addr != p.addr {
                cur = p;
            }
            Ok(cur)
        }
    }
}

fn word_at_exec(dump: &CoreDump, addr: u64, ofs: u64) -> (r: Result<u64, ReadError>)
    ensures
        match word_at(*dump, addr, ofs) {
            Some(v) => r == Ok::<u64, ReadError>(v),
            None => r is Err,
        },
{
    if ofs > u64::MAX - addr {
        return Err(());
    }
    dump.read_ptr(addr + ofs)
}

pub struct CppMap<'d> {
    /// The type of the items (a `std::pair`)
    pub item_type: &'d Type,
    /// The first node in order (the nil node for an empty map)
    pub cur_node: CppMapNode,
    /// The number of nodes
    pub node_count: u64,
}

/// A `std::map` at `addr`: its item type (`value_type`), its first node in order and its
/// node count (at offset 0x28). The first node is the node that the header's left link
/// points to (the header at offset 8).
pub open spec fn map_at(p: DebugPool, d: CoreDump, ty: Type, addr: u64) -> Result<Option<(Type, CppMapNode, u64)>, ()> {
    match ty {
        Type::Struct(ct) => if !spec_starts_with(ct.name@, "std::map<"@) {
            Ok(None)
        } else {
            match sub_type(ct, "value_type"@) {
                Some(tr) => match p.spec_type(tr) {
                    Some(item) => match word_at(d, addr, 0x28) {
                        Some(count) => if count > 0 {
                            match addr_add(addr, 8) {
                                Some(h) => match map_node_at(d, h) {
                                    Some(n1) => match map_node_at(d, n1.left_addr) {
                                        Some(first) => Ok(Some((item, first, count))),
                                        None => Err(()),
                                    },
                                    None => Err(()),
                                },
                                None => Err(()),
                            }
                        } else {
                            Ok(Some((item, CppMapNode { addr: 0, left_addr: 0, parent_addr: 0, right_addr: 0 }, count)))
                        },
                        None => Err(()),
                    },
                    None => Err(()),
                },
                None => Err(()),
            }
        },
        _ => Ok(None),
    }
}

impl<'d> CppMap<'d> {
    pub fn opt_read(input: &Input<'d>, ty: &Type, addr: u64) -> (r: Result<Option<Self>, ReadError>)
        ensures
            match map_at(*input.debug, *input.dump, *ty, addr) {
                Err(_) => r is Err,
                Ok(None) => r matches Ok(None),
                Ok(Some((t, n, c))) => r matches Ok(Some(x)) && *x.item_type == t && x.cur_node == n && x.node_count == c,
            },
    {
        let ct = match struct_with_prefix(ty, "std::map<") {
            Some(ct) => ct,
            None => {
                return Ok(None);
            },
        };
        let item_type: &'d Type = match sub_type_exec(ct, "value_type") {
            Some(tr) => match input.debug.try_get_type(&tr) {
                Some(t) => t,
                None => {
                    return Err(());
                },
            },
            None => {
                return Err(());
            },
        };
        let node_count = input.word_at(addr, 0x28)?;
        let first_node = if node_count > 0 {
            if addr > u64::MAX - 8 {
                return Err(());
            }
            let n1 = CppMapNode::read(input.dump, addr + 8)?;
            CppMapNode::read(input.dump, n1.left_addr)?
        } else {
            CppMapNode { addr: 0, left_addr: 0, parent_addr: 0, right_addr: 0 }
        };
        Ok(Some(CppMap { item_type, cur_node: first_node, node_count }))
    }
}

// ---------------------------------------------------------------------------
// std::unordered_map

/// A node of the singly linked list of a `std::unordered_map` (the nil node has address
/// zero)
#[derive(Clone, Copy, Debug)]
pub struct CppUnorderedMapNode {
    pub node_addr: u64,
    /// Offset of the stored value in a node
    pub data_ofs: u64,
}

impl CppUnorderedMapNode {
    pub fn is_nil(&self) -> (b: bool)
        ensures
            b == (self.node_addr == 0),
    {
        self.node_addr == 0
    }

    /// The address of the value stored in the node
    pub fn data_addr(&self) -> (r: u64)
        requires
            self.node_addr + self.data_ofs <= u64::MAX,
        ensures
            r == self.node_addr + self.data_ofs,
    {
        self.node_addr + self.data_ofs
    }

    /// The next node: the one whose address the first word of this node holds.
    pub fn next(&self, dump: &CoreDump) -> (r: Result<Self, ReadError>)
        ensures
            match word_at(*dump, self.node_addr, 0) {
                Some(a) => r == Ok::<CppUnorderedMapNode, ReadError>(CppUnorderedMapNode { node_addr: a, data_ofs: self.data_ofs }),
                None => r is Err,
            },
    {
        let next_addr = word_at_exec(dump, self.node_addr, 0)?;
        Ok(CppUnorderedMapNode { node_addr: next_addr, data_ofs: self.data_ofs })
    }
}

pub struct CppUnorderedMap<'d> {
    /// The type of the items (a `std::pair`)
    pub item_type: &'d Type,
    pub first_node: CppUnorderedMapNode,
}

pub open spec fn unordered_data_path() -> Seq<PathStep> {
    seq![PathStep::Parent(1), PathStep::Parent(0), PathStep::Field("_M_storage"@),
        PathStep::Field("_M_storage"@), PathStep::Field("__data"@)]
}

/// The resolved node type of a `std::unordered_map` type `ct`: the target of the
/// `__node_ptr` type declared in the type of its first field.
pub open spec fn unordered_node_type(p: DebugPool, ct: CompositeType) -> Option<Type> {
    if ct.fields@.len() == 0 {
        None
    } else {
        match ref_resolved(p, ct.fields@[0].ty) {
            Some(Type::Struct(h)) => match sub_type(h, "__node_ptr"@) {
                Some(np) => match pointee(p, np) {
                    Some(n) => ref_resolved(p, n),
                    None => None,
                },
                None => None,
            },
            _ => None,
        }
    }
}

/// A `std::unordered_map` at `addr`: its item type (`value_type`, resolved), its first
/// node (whose address is at offset 0x10, the value at the node type's `__data`
/// storage).
pub open spec fn unordered_map_at(p: DebugPool, d: CoreDump, ty: Type, addr: u64) -> Result<Option<(Type, CppUnorderedMapNode)>, ()> {
    match ty {
        Type::Struct(ct) => if !spec_starts_with(ct.name@, "std::unordered_map<"@) {
            Ok(None)
        } else {
            match sub_type(ct, "value_type"@) {
                Some(tr) => match (ref_resolved(p, tr), unordered_node_type(p, ct)) {
                    (Some(item), Some(node)) => match field_offset(p, node, unordered_data_path()) {
                        Some(data_ofs) => match word_at(d, addr, 0x10) {
                            Some(first) => Ok(Some((item, CppUnorderedMapNode { node_addr: first, data_ofs }))),
                            None => Err(()),
                        },
                        None => Err(()),
                    },
                    _ => Err(()),
                },
                None => Err(()),
            }
        },
        _ => Ok(None),
    }
}

impl<'d> CppUnorderedMap<'d> {
    pub fn opt_read(input: &Input<'d>, ty: &Type, addr: u64) -> (r: Result<Option<Self>, ReadError>)
        ensures
            match unordered_map_at(*input.debug, *input.dump, *ty, addr) {
                Err(_) => r is Err,
                Ok(None) => r matches Ok(None),
                Ok(Some((t, n))) => r matches Ok(Some(x)) && *x.item_type == t && x.first_node == n,
            },
    {
        let ct = match struct_with_prefix(ty, "std::unordered_map<") {
            Some(ct) => ct,
            None => {
                return Ok(None);
            },
        };
        let item_type: &'d Type = match sub_type_exec(ct, "value_type") {
            Some(tr) => match input.resolve_alias_chain_tr(&tr) {
                Some(t) => t,
                None => {
                    return Err(());
                },
            },
            None => {
                return Err(());
            },
        };
        if ct.fields.len() == 0 {
            return Err(());
        }
        let node_ty: &'d Type = match input.resolve_alias_chain_tr(&ct.fields[0].ty) {
            Some(Type::Struct(h)) => match sub_type_exec(h, "__node_ptr") {
                Some(np) => match input.pointee(&np) {
                    Some(n) => match input.resolve_alias_chain_tr(&n) {
                        Some(t) => t,
                        None => {
                            return Err(());
                        },
                    },
                    None => {
                        return Err(());
                    },
                },
                None => {
                    return Err(());
                },
            },
            _ => {
                return Err(());
            },
        };
        let path = Path::root().parent(1).parent(0).field("_M_storage").field("_M_storage").field("__data");
        assert(path@ =~= unordered_data_path());
        let data_ofs = match input.get_field(node_ty, path) {
            Some((o, _)) => o,
            None => {
                return Err(());
            },
        };
        let first = input.word_at(addr, 0x10)?;
        Ok(Some(CppUnorderedMap {
            item_type,
            first_node: CppUnorderedMapNode { node_addr: first, data_ofs },
        }))
    }
}

// ---------------------------------------------------------------------------
// mrustc helper types (earlier layout of the records)

/// A mrustc `TAGGED_UNION` structure
pub struct MrustcTaggedUnion<'d> {
    /// Offset to the data, relative to the passed `addr`
    pub data_ofs: u64,
    /// Name and data type of the current variant
    pub variant: Option<(&'d str, &'d Type)>,
    /// Other data fields on the union (`TAGGED_UNION_EX` can add methods and data)
    pub other_fields: &'d [CompositeField],
}

impl<'d> MrustcTaggedUnion<'d> {
    /// The tagged union at `addr` (see `mrustc::tagged_union_at`).
    pub fn opt_read(input: &Input<'d>, ty: &'d Type, addr: u64) -> (r: Result<Option<Self>, ReadError>)
        ensures
            match tagged_union_at(*input.debug, *input.dump, *ty, addr) {
                Err(_) => r is Err,
                Ok(None) => r matches Ok(None),
                Ok(Some((o, v, fs, _))) => r matches Ok(Some(x)) && x.data_ofs == o && x.other_fields@ == fs
                    && match v {
                        None => x.variant is None,
                        Some((n, t)) => x.variant matches Some((n2, t2)) && n2@ == n && *t2 == t,
                    },
            },
    {
        match read_tagged_union(input, ty, addr)? {
            None => Ok(None),
            Some((data_ofs, variant, other_fields, _)) => Ok(Some(MrustcTaggedUnion { data_ofs, variant, other_fields })),
        }
    }
}

pub struct MrustcRcString {
    pub data_addr: u64,
    pub string_ptr: u64,
    pub string_len: u64,
}

impl MrustcRcString {
    /// The `RcString` at `addr` (see `mrustc::rc_string_at`), without checking the block
    /// beyond its `size` field.
    pub fn opt_read<'d>(input: &Input<'d>, ty: &'d Type, addr: u64) -> (r: Result<Option<Self>, ReadError>)
        ensures
            match rc_string_at(*input.debug, *input.dump, *ty, addr, false) {
                Err(_) => r is Err,
                Ok(None) => r matches Ok(None),
                Ok(Some((a, p, l))) => r matches Ok(Some(x)) && x.data_addr == a && x.string_ptr == p && x.string_len == l,
            },
    {
        match read_rc_string(input, ty, addr, false)? {
            None => Ok(None),
            Some((data_addr, string_ptr, string_len)) => Ok(Some(MrustcRcString { data_addr, string_ptr, string_len })),
        }
    }
}

} // verus!
