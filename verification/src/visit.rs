//! The walk through the dumped process's memory: from a variable, through its fields,
//! containers and owning pointers, claiming the memory each value occupies.
use vstd::prelude::*;
use crate::core_dump::ReadError;
use crate::debug_info::{CompositeField, CompositeType, Enum, EnumVariant, Type, TypeRef, VariantDiscr};
use crate::text::{push_str, str_eq, str_starts_with, u64_to_decimal};
use crate::type_handlers::{CppMap, CppSharedPtr, CppString, CppUniquePtr, CppUnorderedMap, CppVector, Input};
use crate::type_handlers::mrustc::{RcString, TaggedUnion, ThinVector};
use crate::type_handlers::rust::{AllocVec, HashbrownMap};
use crate::usage::{Output, add_all, area_units, claim_size, lemma_add_all_member, lemma_add_all_monotone, usage_keys, variant_count};
use crate::named::{count_of, named_map, sat_add};
use crate::visit_helpers::{Path, PathStep, field_walk, resolved};
use crate::debug_info::DebugPool;
use crate::core_dump::{CoreDump, spec_read};
use crate::debug_query::{type_size, type_text, vtable_type};
use crate::text::{spec_decimal, spec_starts_with};
use crate::type_handlers::{addr_add, CppMapNode, CppUnorderedMapNode, map_node_next, word_at, string_at, unique_ptr_at, shared_ptr_at, vector_at, map_at, unordered_map_at};
use crate::type_handlers::mrustc::{tagged_union_at, thin_vector_at, rc_string_at};
use crate::type_handlers::rust::{alloc_vec_at, hashbrown_item};

verus! {

/// `o1` holds all that `o0` held: the memory marked as used, the shared pointers seen and
/// the counts of enum variants only grow.
pub open spec fn grows(o0: Output, o1: Output) -> bool {
    &&& o1.wf()
    &&& forall|u: int| #[trigger] o0.used_memory.view().contains(u) ==> o1.used_memory.view().contains(u)
    &&& forall|a: u64| #[trigger] o0.shared_pointers@.contains(a) ==> o1.shared_pointers@.contains(a)
    &&& forall|t: Seq<char>, v: Seq<char>| #[trigger] variant_count(o0, t, v) <= variant_count(o1, t, v)
    &&& forall|k: Seq<char>| #[trigger] count_of(named_map(o0.usage@), k) <= count_of(named_map(o1.usage@), k)
}

/// `o1` is `o0` with the claim of a `ty` at `addr` for the path `path` (when `claims`):
/// its area marked, its size added under the usage keys of the path and its type counted
/// at the top level; nothing else changes.
pub open spec fn own_claimed(input: Input, o0: Output, o1: Output, ty: Type, addr: u64, path: Seq<PathStep>, claims: bool) -> bool {
    if claims {
        &&& o1.used_memory.view() == o0.used_memory.view().union(area_units(addr, claim_size(input, ty)))
        &&& named_map(o1.usage@) == add_all(named_map(o0.usage@), usage_keys(path), claim_size(input, ty))
        &&& named_map(o1.root_type_counts@) == named_map(o0.root_type_counts@).insert(
            type_text(*input.debug, ty, input.debug.types@.len()),
            sat_add(count_of(named_map(o0.root_type_counts@), type_text(*input.debug, ty, input.debug.types@.len())), 1))
        &&& o1.shared_pointers@ == o0.shared_pointers@
        &&& o1.enum_variant_counts == o0.enum_variant_counts
    } else {
        same_output(o0, o1)
    }
}

/// The type a value of type `ty` at `addr` is visited as: `ty` with its aliases resolved,
/// or, for a struct whose first field is a virtual-table pointer (`_vptr.`), the type that
/// the virtual table it points into belongs to, when one is found.
pub open spec fn effective_type(p: DebugPool, d: CoreDump, ty: Type, addr: u64) -> Option<Type> {
    match resolved(p, ty) {
        None => None,
        Some(t) => match t {
            Type::Struct(ct) => if ct.fields@.len() > 0 && spec_starts_with(ct.fields@[0].name@, "_vptr."@) {
                match word_at(d, addr, ct.fields@[0].offset) {
                    None => None,
                    Some(v) => match vtable_type(p, v) {
                        Some(t2) => Some(t2),
                        None => Some(t),
                    },
                }
            } else {
                Some(t)
            },
            _ => Some(t),
        },
    }
}

/// What a struct value is recognised as: the first of the known container, pointer and
/// tagged-union types that takes it
pub enum Known {
    /// A `std::string`: its buffer, length and capacity (zero for an inline buffer)
    CppString(u64, u64, u64),
    /// A `std::unique_ptr`: its target and the target's type
    UniquePtr(u64, Type),
    /// A `std::shared_ptr`: its target and its count block
    SharedPtr(u64, u64),
    VectorOfBool,
    /// A `std::vector`: its begin, end and end of allocation, and its item type
    CppVector(u64, u64, u64, Type),
    /// A `std::map`: its item type, its first node and its node count
    CppMap(Type, CppMapNode, u64),
    /// A `std::unordered_map`: its item type and its first node
    CppUnorderedMap(Type, CppUnorderedMapNode),
    /// An `alloc::vec::Vec`: as a `std::vector`
    RustVec(u64, u64, u64, Type),
    HashbrownMap,
    TaggedUnion,
    /// A mrustc `ThinVector`: its item pointer, length and capacity, and its item type
    ThinVector(u64, u64, u64, Type),
    /// A mrustc `RcString`: its block
    RcString(u64, u64, u64),
}

/// The known type that the struct `ct` (`ty`) at `addr` is recognised as, trying the
/// recognisers in turn; `Err` where one fails before any takes it.
pub open spec fn known_at(input: Input, ty: Type, ct: CompositeType, addr: u64) -> Result<Option<Known>, ()> {
    let p = *input.debug;
    let d = *input.dump;
    match string_at(d, ty, addr) {
        Err(_) => Err(()),
        Ok(Some((sp, l, c))) => Ok(Some(Known::CppString(sp, l, c))),
        Ok(None) => match unique_ptr_at(p, d, ty, addr) {
            Err(_) => Err(()),
            Ok(Some((a, t))) => Ok(Some(Known::UniquePtr(a, t))),
            Ok(None) => match shared_ptr_at(p, d, ty, addr) {
                Err(_) => Err(()),
                Ok(Some((a, _, c, _))) => Ok(Some(Known::SharedPtr(a, c))),
                Ok(None) => if spec_starts_with(ct.name@, "std::vector<bool"@) {
                    Ok(Some(Known::VectorOfBool))
                } else {
                    match vector_at(p, d, ty, addr) {
                        Err(_) => Err(()),
                        Ok(Some((b, e, a, t))) => Ok(Some(Known::CppVector(b, e, a, t))),
                        Ok(None) => known_rest(input, ty, addr),
                    }
                },
            },
        },
    }
}

/// `known_at` after the `std::vector` recogniser.
pub open spec fn known_rest(input: Input, ty: Type, addr: u64) -> Result<Option<Known>, ()> {
    let p = *input.debug;
    let d = *input.dump;
    match map_at(p, d, ty, addr) {
        Err(_) => Err(()),
        Ok(Some((t, n, c))) => Ok(Some(Known::CppMap(t, n, c))),
        Ok(None) => match unordered_map_at(p, d, ty, addr) {
            Err(_) => Err(()),
            Ok(Some((t, n))) => Ok(Some(Known::CppUnorderedMap(t, n))),
            Ok(None) => match alloc_vec_at(p, d, ty, addr) {
                Err(_) => Err(()),
                Ok(Some((b, e, a, t))) => Ok(Some(Known::RustVec(b, e, a, t))),
                Ok(None) => match hashbrown_item(p, ty) {
                    Err(_) => Err(()),
                    Ok(Some(_)) => Ok(Some(Known::HashbrownMap)),
                    Ok(None) => match tagged_union_at(p, d, ty, addr) {
                        Err(_) => Err(()),
                        Ok(Some(_)) => Ok(Some(Known::TaggedUnion)),
                        Ok(None) => match thin_vector_at(p, d, ty, addr) {
                            Err(_) => Err(()),
                            Ok(Some((dp, l, c, t))) => Ok(Some(Known::ThinVector(dp, l, c, t))),
                            Ok(None) => match rc_string_at(p, d, ty, addr, true) {
                                Err(_) => Err(()),
                                Ok(Some((a, sp, l))) => Ok(Some(Known::RcString(a, sp, l))),
                                Ok(None) => Ok(None),
                            },
                        },
                    },
                },
            },
        },
    }
}

/// `size` bytes at `addr` end, with the rounding of the used-memory map, within the
/// address space.
pub open spec fn raw_fits(addr: u64, size: u64) -> bool {
    size <= u64::MAX - 15 && addr <= u64::MAX - 15 - size
}

/// The number of items of `size` bytes in `len` bytes, a trailing part counting as one.
pub open spec fn item_count(len: u64, size: u64) -> u64 {
    let q = len / size;
    if len % size != 0 && q < u64::MAX { (q + 1) as u64 } else { q }
}

/// The area of item `i` of those laid out every `step` bytes from `begin`.
pub open spec fn item_area(begin: u64, step: u64, i: u64, size: u64) -> Set<int> {
    area_units((begin + i * step) as u64, size)
}

/// The items of type `t` from `b` to `e` are all claimed in `o`.
pub open spec fn items_claimed(input: Input, o: Output, b: u64, e: u64, t: Type) -> bool {
    let sz = claim_size(input, t);
    &&& sz > 0
    &&& forall|i: u64| i < item_count((e - b) as u64, sz)
        ==> #[trigger] item_area(b, sz, i, sz).subset_of(o.used_memory.view())
}

/// Node `i` of a `std::map` in order, from its first node.
pub open spec fn map_nth(d: CoreDump, first: CppMapNode, i: nat) -> Option<CppMapNode>
    decreases i,
{
    if i == 0 {
        Some(first)
    } else {
        match map_nth(d, first, (i - 1) as nat) {
            Some(n) => map_node_next(d, n, u64::MAX as nat),
            None => None,
        }
    }
}

/// The item of node `i` of a `std::map` (after the node's header) is claimed in `o`.
pub open spec fn map_item_claimed(input: Input, o: Output, first: CppMapNode, i: u64, item: Type) -> bool {
    match map_nth(*input.dump, first, i as nat) {
        Some(n) => n.addr != 0 && n.addr + 0x20 <= u64::MAX
            && area_units((n.addr + 0x20) as u64, claim_size(input, item)).subset_of(o.used_memory.view()),
        None => false,
    }
}

/// Node `i` of the list of a `std::unordered_map`, following the links from its first
/// node; none past the nil node.
pub open spec fn unordered_nth(d: CoreDump, first: CppUnorderedMapNode, i: nat) -> Option<CppUnorderedMapNode>
    decreases i,
{
    if i == 0 {
        Some(first)
    } else {
        match unordered_nth(d, first, (i - 1) as nat) {
            Some(n) => if n.node_addr == 0 {
                None
            } else {
                match word_at(d, n.node_addr, 0) {
                    Some(a) => Some(CppUnorderedMapNode { node_addr: a, data_ofs: first.data_ofs }),
                    None => None,
                }
            },
            None => None,
        }
    }
}

proof fn lemma_unordered_past_nil(d: CoreDump, first: CppUnorderedMapNode, i: nat, k: nat)
    requires
        unordered_nth(d, first, i) matches Some(n) && n.node_addr == 0 || unordered_nth(d, first, i) is None,
        i < k,
    ensures
        unordered_nth(d, first, k) is None,
    decreases k - i,
{
    if k > i + 1 {
        lemma_unordered_past_nil(d, first, i, (k - 1) as nat);
    }
}

/// The item of node `i` of a `std::unordered_map`, when that node is reached and not nil,
/// is claimed in `o`.
pub open spec fn unordered_item_claimed(input: Input, o: Output, first: CppUnorderedMapNode, i: u64, item: Type) -> bool {
    match unordered_nth(*input.dump, first, i as nat) {
        Some(n) => n.node_addr != 0 ==> n.node_addr + n.data_ofs <= u64::MAX
            && area_units((n.node_addr + n.data_ofs) as u64, claim_size(input, item)).subset_of(o.used_memory.view()),
        None => true,
    }
}

/// When the struct named `name` (`ty`) at `addr` is a mrustc tagged union with a current
/// variant, that variant is counted in `o`.
pub open spec fn tagged_union_counted(input: Input, ty: Type, name: Seq<char>, addr: u64, o0: Output, o: Output) -> bool {
    match tagged_union_at(*input.debug, *input.dump, ty, addr) {
        Ok(Some((_, Some((n, _)), _, _))) => variant_count(o, name, n) >= sat_add(variant_count(o0, name, n), 1),
        _ => true,
    }
}

/// Whether a value recognised as `k`, visited when `o` holds what was found so far, leaves
/// nothing more to claim, count or note: an inline `std::string` (whose text, where it has
/// one, starts with readable bytes), a null `unique_ptr`, a `shared_ptr` whose target and
/// count block are null or already seen, a `std::vector<bool>`, a `std::vector` whose
/// pointers are out of order, an empty `std::map` or `std::unordered_map`, and a null or
/// already seen `RcString` (whose text, where it is not empty, starts with readable bytes).
pub open spec fn known_quiet(input: Input, k: Known, o: Output) -> bool {
    match k {
        Known::CppString(p, l, c) => c == 0 && string_ok(l, c) && (p == 0 || head_readable(*input.dump, p, l)),
        Known::UniquePtr(a, _) => a == 0,
        Known::SharedPtr(a, c) => (a == 0 || o.shared_pointers@.contains(a)) && (c == 0 || o.shared_pointers@.contains(c)),
        Known::VectorOfBool => true,
        Known::CppVector(b, e, a, t) => type_size(*input.debug, t, input.debug.types@.len()) is Some && !(b <= e <= a),
        Known::CppMap(_, _, count) => count == 0,
        Known::CppUnorderedMap(_, first) => first.node_addr == 0,
        Known::RcString(a, p, l) => (a == 0 || o.shared_pointers@.contains(a)) && (l == 0 || head_readable(*input.dump, p, l)),
        _ => false,
    }
}

/// What visiting the items of type `item` from `b` to `e` gives, from `o0` to `o1` with
/// success `ok`, where that is fixed before any item is visited: an item type of unknown
/// or zero size fails; no items succeed when a level of nesting is left for them. Either
/// way nothing changes.
pub open spec fn vec_items_outcome(input: Input, o0: Output, o1: Output, item: Type, b: u64, e: u64, budget: u64, ok: bool) -> bool {
    &&& claim_size(input, item) == 0 ==> !ok && o1 == o0
    &&& (claim_size(input, item) > 0 && b == e) ==> (ok <==> budget > 1) && o1 == o0
}

/// How much of a string's text is read to show it: its first 16 bytes at most.
pub open spec fn head_len(l: u64) -> nat {
    if l < 16 { l as nat } else { 16 }
}

/// The first bytes (up to 16) of the text of length `l` at `p` can be read from the dump.
pub open spec fn head_readable(d: CoreDump, p: u64, l: u64) -> bool {
    spec_read(d, p, head_len(l)) is Some
}

/// Reads the first bytes (up to 16) of the text of length `len` at `p`, as the walk does to
/// show a string; fails where they cannot be read.
fn read_head(dump: &CoreDump, p: u64, len: u64) -> (r: Result<(), ReadError>)
    ensures
        r is Ok <==> head_readable(*dump, p, len),
{
    let l: usize = if len < 16 { len as usize } else { 16 };
    let mut buf: Vec<u8> = vec![0u8; l];
    dump.read_bytes(p, buf.as_mut_slice())
}

/// A `std::string` with length `l` and capacity `c` is well formed.
pub open spec fn string_ok(l: u64, c: u64) -> bool {
    (c == 0 || l <= c) && c < 0x10_00000
}

/// What the visit of a `std::string` (buffer `p`, length `l`, capacity `c`) that ends in
/// `o` with success `ok` gives: it must be well formed, and a heap buffer is claimed.
pub open spec fn known_result_string(o: Output, p: u64, l: u64, c: u64, ok: bool) -> bool {
    &&& !string_ok(l, c) ==> !ok
    &&& (ok && c != 0) ==> raw_fits(p, l) && area_units(p, l).subset_of(o.used_memory.view())
}

/// What a visit that ends in `o` with success `ok` gives for a value recognised as `k`: a
/// `std::string` must be well formed and has its heap buffer claimed (and the first bytes
/// of its text are read, see `visit_cpp_string`); a vector (a
/// `std::vector` whose pointers are in order, and any `alloc::vec::Vec`), a `std::map` and a
/// `std::unordered_map` have each item claimed; a `std::unique_ptr` succeeds whatever its
/// target gives (see `known_target`); a `std::shared_ptr` succeeds with its non-null
/// pointers noted as shared, as is the block of an `RcString`, whose text's first bytes
/// must be readable where it is not empty; a `ThinVector` has its
/// whole capacity claimed; a `hashbrown` map fails.
pub open spec fn known_result(input: Input, k: Known, o: Output, ok: bool) -> bool {
    match k {
        Known::CppString(p, l, c) => known_result_string(o, p, l, c, ok),
        Known::CppVector(b, e, a, t) => (ok && b <= e <= a) ==> items_claimed(input, o, b, e, t),
        Known::RustVec(b, e, a, t) => ok ==> b <= e <= a && items_claimed(input, o, b, e, t),
        Known::HashbrownMap => !ok,
        Known::CppMap(t, first, count) => ok ==> forall|i: u64| i < count ==> #[trigger] map_item_claimed(input, o, first, i, t),
        Known::CppUnorderedMap(t, first) => ok ==> forall|i: u64| i < u64::MAX ==> #[trigger] unordered_item_claimed(input, o, first, i, t),
        Known::UniquePtr(_, _) => ok,
        Known::SharedPtr(a, c) => ok && (a != 0 ==> o.shared_pointers@.contains(a)) && (c != 0 ==> o.shared_pointers@.contains(c)),
        Known::ThinVector(dp, l, c, t) => ok ==> c * claim_size(input, t) <= u64::MAX
            && area_units(dp, (c * claim_size(input, t)) as u64).subset_of(o.used_memory.view()),
        Known::RcString(a, p, l) => (ok ==> l == 0 || head_readable(*input.dump, p, l)) && ((ok && a != 0) ==> o.shared_pointers@.contains(a)),
        _ => true,
    }
}

/// What the visit of a value recognised as `k`, with `budget` levels of nesting left,
/// leaves of its target where that target's own visit may fail without failing the
/// value's: the non-null target of a `std::unique_ptr`, when a level is left for it, is
/// claimed as its effective type wherever that claim fits in the address space.
pub open spec fn known_target(input: Input, k: Known, o: Output, budget: u64) -> bool {
    match k {
        Known::UniquePtr(a, t) => (a != 0 && budget > 1) ==> match effective_type(*input.debug, *input.dump, t, a) {
            Some(e) => claim_fits(input, e, a) ==> area_units(a, claim_size(input, e)).subset_of(o.used_memory.view()),
            None => true,
        },
        _ => true,
    }
}

/// `o1` is `o0` with variant `v` of the type named `t` counted once more, and nothing else
/// changed.
pub open spec fn variant_counted(o0: Output, o1: Output, t: Seq<char>, v: Seq<char>) -> bool {
    &&& o1.used_memory == o0.used_memory
    &&& o1.usage == o0.usage
    &&& o1.shared_pointers@ == o0.shared_pointers@
    &&& o1.root_type_counts == o0.root_type_counts
    &&& forall|t2: Seq<char>, v2: Seq<char>| #[trigger] variant_count(o1, t2, v2) == if t2 == t && v2 == v {
        sat_add(variant_count(o0, t2, v2), 1)
    } else {
        variant_count(o0, t2, v2)
    }
}

/// The name and type of a tagged union's current variant, as values.
pub open spec fn variant_view(v: Option<(&str, &Type)>) -> Option<(Seq<char>, Type)> {
    match v {
        Some((n, t)) => Some((n@, *t)),
        None => None,
    }
}

/// A value reached by `path` is claimed: it is the root or a pointer's target.
pub open spec fn claims_at(path: Seq<PathStep>) -> bool {
    path.len() == 0 || path.last() is Deref
}

/// A successful visit of the value of type `ty` at `addr`, reached by `path`, with `budget`
/// levels of nesting, that takes the output from `o0` to `o1`: the effective type is known;
/// the value is claimed first when it is the root or a pointer's target; then a struct is
/// walked into as `struct_walked` says, and a Rust enum as `enum_walked` says.
pub open spec fn visited(input: Input, o0: Output, o1: Output, ty: Type, addr: u64, path: Seq<PathStep>, budget: u64) -> bool
    decreases budget, 6int, 0nat,
{
    budget > 0 && match effective_type(*input.debug, *input.dump, ty, addr) {
        None => false,
        Some(t) => {
            &&& grows(o0, o1)
            &&& claims_at(path) ==> claim_fits(input, t, addr)
            &&& exists|om: Output| #[trigger] own_claimed(input, o0, om, t, addr, path, claims_at(path)) && match t {
                Type::Struct(ct) => struct_walked(input, om, o1, t, ct, addr, path, budget),
                Type::Varianted(e) => enum_walked(input, om, o1, e, addr, path, budget),
                _ => true,
            }
        },
    }
}

/// A successful walk into the struct `ct` (`ty`) at `addr`, from `o0` to `o1`: a struct
/// that none of the known types takes is walked as `plain_struct_walked` says; a mrustc
/// tagged union has its variant counted and visited, then its other fields (`tu_walked`);
/// a `std::shared_ptr` as `shared_walked` says; a `std::vector` whose pointers are in order
/// and an `alloc::vec::Vec` have their items claimed and visited (`vec_walked`), and so
/// has a `std::map`, node by node in order (`node_steps`), and a `std::unordered_map`
/// (`unordered_walked`); a mrustc `ThinVector` has its
/// allocation marked and its items visited (`thin_walked`).
pub open spec fn struct_walked(input: Input, o0: Output, o1: Output, ty: Type, ct: CompositeType, addr: u64, path: Seq<PathStep>, budget: u64) -> bool
    decreases budget, 5int, 0nat,
{
    if budget == 0 {
        true
    } else {
        match known_at(input, ty, ct, addr) {
            Ok(None) => plain_struct_walked(input, o0, o1, ty, ct, addr, path, (budget - 1) as u64),
            Ok(Some(Known::TaggedUnion)) => match tagged_union_at(*input.debug, *input.dump, ty, addr) {
                Ok(Some((dofs, v, fs, _))) => tu_walked(input, o0, o1, ct.name@, dofs, v, fs, addr, path, budget),
                _ => true,
            },
            Ok(Some(Known::SharedPtr(_, _))) => match shared_ptr_at(*input.debug, *input.dump, ty, addr) {
                Ok(Some((a, ta, c, tc))) => shared_walked(input, o0, o1, a, ta, c, tc, budget),
                _ => true,
            },
            Ok(Some(Known::CppVector(vb, ve, va, t))) => vb <= ve <= va ==> vec_walked(input, o0, o1, vb, ve, t, path, budget),
            Ok(Some(Known::RustVec(vb, ve, _, t))) => vec_walked(input, o0, o1, vb, ve, t, path, budget),
            Ok(Some(Known::CppMap(t, first, count))) => node_steps(input, o0, o1, t, first, path, budget, count as nat),
            Ok(Some(Known::ThinVector(dp, l, c, t))) => thin_walked(input, o0, o1, dp, l, c, t, path, budget),
            Ok(Some(Known::CppUnorderedMap(t, first))) => unordered_walked(input, o0, o1, t, first, path, budget),
            _ => true,
        }
    }
}

/// A successful walk into the Rust enum `e` at `addr`, from `o0` to `o1`: its common fields
/// visited in order at their offsets under `path` and their names (see `tu_steps`), giving
/// `om`; then the variant that its discriminant selects, where there is one, is walked
/// (see `variant_fields_walked`).
pub open spec fn enum_walked(input: Input, o0: Output, o1: Output, e: Enum, addr: u64, path: Seq<PathStep>, budget: u64) -> bool
    decreases budget, 5int, 0nat,
{
    exists|om: Output| #[trigger] grows(o0, om) && tu_steps(input, o0, om, e.outer.fields@, addr, path, budget, e.outer.fields@.len())
        && match enum_variant_at(*input.dump, e, addr) {
            Ok(Some(i)) => variant_fields_walked(input, om, o1, e, i, addr, path, budget),
            Ok(None) => o1 == om,
            Err(_) => false,
        }
}

/// Variant `i` of the Rust enum `e` at `addr`, counted once more and then its fields
/// visited in order at their offsets under `path`, the variant's number and their names,
/// takes the output from `o0` to `o1`.
pub open spec fn variant_fields_walked(input: Input, o0: Output, o1: Output, e: Enum, i: int, addr: u64, path: Seq<PathStep>, budget: u64) -> bool
    decreases budget, 4int, 0nat,
{
    0 <= i < e.variants@.len() && i <= usize::MAX && exists|oc: Output| #[trigger] variant_counted(o0, oc, e.outer.name@, variant_label(e, i))
        && tu_steps(input, oc, o1, e.variants@[i].fields@, addr, path.push(PathStep::Index(i as usize)), budget, e.variants@[i].fields@.len())
}

/// The walk into the items of a vector of type `t` from `b` to `e`, with `budget` levels
/// for the vector: each item, laid out every item size bytes, claimed and then visited in
/// order at `path` and its index (see `item_steps`).
pub open spec fn vec_walked(input: Input, o0: Output, o1: Output, b: u64, e: u64, t: Type, path: Seq<PathStep>, budget: u64) -> bool
    decreases budget, 4int, 0nat,
{
    let sz = claim_size(input, t);
    budget > 1 && sz > 0 && item_steps(input, o0, o1, t, b, sz, path, true, (budget - 1) as u64,
        item_count((e - b) as u64, sz) as nat)
}

/// The first `k` items of type `t`, laid out every `step` bytes from `begin`, each claimed
/// first when `claim` and then visited at `path` and its index, with `b` levels left for
/// the items' own walk, take the output from `o0` to `o` (each output growing from the one
/// before).
pub open spec fn item_steps(input: Input, o0: Output, o: Output, t: Type, begin: u64, step: u64, path: Seq<PathStep>,
    claim: bool, b: u64, k: nat) -> bool
    decreases b, 3int, k,
{
    if k == 0 {
        o == o0
    } else {
        exists|om: Output| #[trigger] grows(om, o) && item_steps(input, o0, om, t, begin, step, path, claim, b, (k - 1) as nat)
            && item_walked(input, om, o, t, begin, step, path, claim, b, k - 1)
    }
}

/// Item `i` of type `t`, at `begin + i * step`, claimed first when `claim` and then visited
/// at `path` and `i`, with one level less than `b`, takes the output from `o0` to `o1`.
pub open spec fn item_walked(input: Input, o0: Output, o1: Output, t: Type, begin: u64, step: u64, path: Seq<PathStep>,
    claim: bool, b: u64, i: int) -> bool
    decreases b, 2int, 0nat,
{
    0 <= i && begin + i * step <= u64::MAX && b > 0 && exists|oq: Output| #[trigger] own_claimed(input, o0, oq, t,
        (begin + i * step) as u64, path.push(PathStep::Index(i as usize)), claim)
        && visited(input, oq, o1, t, (begin + i * step) as u64, path.push(PathStep::Index(i as usize)), (b - 1) as u64)
}

/// The first `k` nodes in order of a `std::map` whose first node is `first`, each with its
/// item of type `t` claimed and then visited at `path` and its index, with `b` levels left
/// for the map, take the output from `o0` to `o` (each output growing from the one before).
pub open spec fn node_steps(input: Input, o0: Output, o: Output, t: Type, first: CppMapNode, path: Seq<PathStep>, b: u64, k: nat) -> bool
    decreases b, 3int, k,
{
    if k == 0 {
        o == o0
    } else {
        exists|om: Output| #[trigger] grows(om, o) && node_steps(input, o0, om, t, first, path, b, (k - 1) as nat)
            && node_walked(input, om, o, t, first, path, b, k - 1)
    }
}

/// The item (of type `t`, after the node's header) of node `i` of a `std::map`, claimed and
/// then visited at `path` and `i` with one level less than `b`, takes the output from `o0`
/// to `o1`.
pub open spec fn node_walked(input: Input, o0: Output, o1: Output, t: Type, first: CppMapNode, path: Seq<PathStep>, b: u64, i: int) -> bool
    decreases b, 2int, 0nat,
{
    match map_nth(*input.dump, first, i as nat) {
        Some(n) => 0 <= i && n.addr + 0x20 <= u64::MAX && b > 0 && exists|oq: Output| #[trigger] own_claimed(input, o0, oq, t,
            (n.addr + 0x20) as u64, path.push(PathStep::Index(i as usize)), true)
            && visited(input, oq, o1, t, (n.addr + 0x20) as u64, path.push(PathStep::Index(i as usize)), (b - 1) as u64),
        None => false,
    }
}

/// `o1` is `o0` with the area of `size` bytes at `addr` marked as used, and nothing else
/// changed (the area is not associated with a path).
pub open spec fn raw_marked(o0: Output, o1: Output, addr: u64, size: u64) -> bool {
    &&& o1.used_memory.view() == o0.used_memory.view().union(area_units(addr, size))
    &&& named_map(o1.usage@) == named_map(o0.usage@)
    &&& o1.shared_pointers@ == o0.shared_pointers@
    &&& o1.root_type_counts == o0.root_type_counts
    &&& o1.enum_variant_counts == o0.enum_variant_counts
}

/// The walk into a mrustc `ThinVector` with items of type `t` at `dp`, `l` of them in use
/// out of a capacity of `c`, with `budget` levels: its whole allocation marked as used
/// (without a path), then each item in use visited in order at `path` and its index,
/// without claiming it again (see `item_steps`).
pub open spec fn thin_walked(input: Input, o0: Output, o1: Output, dp: u64, l: u64, c: u64, t: Type, path: Seq<PathStep>, budget: u64) -> bool
    decreases budget, 4int, 0nat,
{
    let sz = claim_size(input, t);
    budget > 1 && c * sz <= u64::MAX && exists|oc: Output| #[trigger] raw_marked(o0, oc, dp, (c * sz) as u64)
        && item_steps(input, oc, o1, t, dp, sz, path, false, (budget - 1) as u64, l as nat)
}

/// The walk of a `std::unordered_map` whose first node is `first` ends after `k` nodes: node
/// `k` is nil, unless `k` is the most nodes a walk takes.
pub open spec fn unordered_end(d: CoreDump, first: CppUnorderedMapNode, k: nat) -> bool {
    k <= u64::MAX && (k < u64::MAX ==> (unordered_nth(d, first, k) matches Some(n) && n.node_addr == 0))
}

/// The walk into a `std::unordered_map` whose first node is `first`, with items of type
/// `t` and `budget` levels: its nodes in order up to the first nil one, each with its item
/// claimed and visited (see `unode_steps`).
pub open spec fn unordered_walked(input: Input, o0: Output, o1: Output, t: Type, first: CppUnorderedMapNode, path: Seq<PathStep>, budget: u64) -> bool
    decreases budget, 4int, 0nat,
{
    exists|k: nat| #[trigger] unordered_end(*input.dump, first, k) && unode_steps(input, o0, o1, t, first, path, budget, k)
}

/// The first `k` nodes of a `std::unordered_map` whose first node is `first`, each with its
/// item of type `t` claimed and then visited at `path` and its index, with `b` levels left
/// for the map, take the output from `o0` to `o` (each output growing from the one before).
pub open spec fn unode_steps(input: Input, o0: Output, o: Output, t: Type, first: CppUnorderedMapNode, path: Seq<PathStep>, b: u64, k: nat) -> bool
    decreases b, 3int, k,
{
    if k == 0 {
        o == o0
    } else {
        exists|om: Output| #[trigger] grows(om, o) && unode_steps(input, o0, om, t, first, path, b, (k - 1) as nat)
            && unode_walked(input, om, o, t, first, path, b, k - 1)
    }
}

/// The item of node `i` of a `std::unordered_map` (a node that is not nil), claimed and
/// then visited at `path` and `i` with one level less than `b`, takes the output from `o0`
/// to `o1`.
pub open spec fn unode_walked(input: Input, o0: Output, o1: Output, t: Type, first: CppUnorderedMapNode, path: Seq<PathStep>, b: u64, i: int) -> bool
    decreases b, 2int, 0nat,
{
    match unordered_nth(*input.dump, first, i as nat) {
        Some(n) => 0 <= i && n.node_addr != 0 && n.node_addr + n.data_ofs <= u64::MAX && b > 0 && exists|oq: Output| #[trigger] own_claimed(input, o0, oq, t,
            (n.node_addr + n.data_ofs) as u64, path.push(PathStep::Index(i as usize)), true)
            && visited(input, oq, o1, t, (n.node_addr + n.data_ofs) as u64, path.push(PathStep::Index(i as usize)), (b - 1) as u64),
        None => false,
    }
}

/// `o1` is `o0` with `a` noted as a shared pointer when `shared`, and nothing else changed.
pub open spec fn noted(o0: Output, o1: Output, a: u64, shared: bool) -> bool {
    &&& o1.used_memory == o0.used_memory
    &&& o1.usage == o0.usage
    &&& o1.root_type_counts == o0.root_type_counts
    &&& o1.enum_variant_counts == o0.enum_variant_counts
    &&& o1.shared_pointers@ == if shared { o0.shared_pointers@.insert(a) } else { o0.shared_pointers@ }
}

/// What the visit of the target `p` (of type `t`, reached by `pp`) of a C++ smart pointer,
/// with `b` levels left for the smart pointer, leaves from `o0` to `o1`, whether it
/// succeeds or fails (a failure is ignored): the output grows; where no level is left for
/// the target, nothing changes; otherwise the target is claimed as its effective type
/// wherever that claim fits in the address space.
pub open spec fn target_visit(input: Input, o0: Output, o1: Output, t: Type, p: u64, b: u64) -> bool {
    &&& grows(o0, o1)
    &&& b == 1 ==> o1 == o0
    &&& b > 1 ==> match effective_type(*input.debug, *input.dump, t, p) {
        Some(e) => claim_fits(input, e, p) ==> area_units(p, claim_size(input, e)).subset_of(o1.used_memory.view()),
        None => true,
    }
}

/// What one pointer `p` (of type `t`) of a `std::shared_ptr` does to the output, from `o0`
/// to `o1`, with `b` levels left for the smart pointer: a null pointer, or one seen before,
/// leaves it as it is (its target is not visited, claimed or counted again); any other is
/// noted as shared, and then its target is visited (see `target_visit`).
pub open spec fn shared_part(input: Input, o0: Output, o1: Output, p: u64, t: Type, b: u64) -> bool {
    if p == 0 || o0.shared_pointers@.contains(p) {
        same_output(o0, o1)
    } else {
        exists|on: Output| #[trigger] noted(o0, on, p, true) && target_visit(input, on, o1, t, p, b)
    }
}

/// What a `std::shared_ptr` with target `a` (of type `ta`) and count block `c` (of type
/// `tc`) does to the output, from `o0` to `o1`, with `b` levels left: its target's part,
/// then its count block's (see `shared_part`), the output growing through both.
pub open spec fn shared_walked(input: Input, o0: Output, o1: Output, a: u64, ta: Type, c: u64, tc: Type, b: u64) -> bool {
    exists|om: Output| #[trigger] shared_part(input, o0, om, a, ta, b) && shared_part(input, om, o1, c, tc, b)
        && grows(o0, om) && grows(om, o1)
}

/// A successful walk through the pointer field `field` of the struct `ty` at `addr`, with
/// `b` levels left, from `o0` to `o1`: the field is a pointer; a null target, or with
/// `shared` a target seen before, leaves the output as it is; any other target is noted
/// as shared (with `shared`) and then visited at `path` and `*`.
pub open spec fn ptr_walked(input: Input, o0: Output, o1: Output, ty: Type, field: Seq<char>, shared: bool, addr: u64,
    path: Seq<PathStep>, b: u64) -> bool
    decreases b, 4int, 0nat,
{
    match ptr_field_target(*input.debug, ty, field) {
        None => false,
        Some((o, t)) => match word_at(*input.dump, addr, o) {
            None => false,
            Some(pv) => if pv == 0 || (shared && o0.shared_pointers@.contains(pv)) {
                same_output(o0, o1)
            } else {
                b > 0 && exists|on: Output| #[trigger] noted(o0, on, pv, shared)
                    && visited(input, on, o1, t, pv, path.push(PathStep::Deref), (b - 1) as u64)
            },
        },
    }
}

/// The walk into a struct named `name` (`ty`) at `addr` that none of the known types
/// takes, with `b` levels left: an `RcString` is left alone; the mrustc smart pointers are
/// walked through their pointer field (`m_ptr` of `Span` and `HIR::TypeRef` shared, the
/// others owned); any other struct has its parents and fields walked.
pub open spec fn plain_struct_walked(input: Input, o0: Output, o1: Output, ty: Type, ct: CompositeType, addr: u64,
    path: Seq<PathStep>, b: u64) -> bool
    decreases b, 5int, 0nat,
{
    let n = ct.name@;
    if n == "RcString"@ {
        o1 == o0
    } else if n == "Span"@ || n == "HIR::TypeRef"@ {
        ptr_walked(input, o0, o1, ty, "m_ptr"@, true, addr, path, b)
    } else if n == "MIR::FunctionPointer"@ || n == "HIR::ExprStatePtr"@ || n == "HIR::ExprPtrInner"@ {
        ptr_walked(input, o0, o1, ty, "ptr"@, false, addr, path, b)
    } else if n == "EncodedLiteralPtr"@ || n == "MIR::EnumCachePtr"@ {
        ptr_walked(input, o0, o1, ty, "p"@, false, addr, path, b)
    } else if n == "MacroRulesPtr"@ || n == "HIR::CratePtr"@ || n == "AST::ExprNodeP"@ {
        ptr_walked(input, o0, o1, ty, "m_ptr"@, false, addr, path, b)
    } else {
        ct_walked(input, o0, o1, ct, addr, path, b)
    }
}

/// A successful walk into the parents and fields of `ct` at `addr`, with `b` levels left,
/// from `o0` to `o1`: all its steps taken in order (see `ct_steps`).
pub open spec fn ct_walked(input: Input, o0: Output, o1: Output, ct: CompositeType, addr: u64, path: Seq<PathStep>, b: u64) -> bool
    decreases b, 4int, 0nat,
{
    b > 0 && ct_steps(input, o0, o1, ct, addr, path, b, ct.parents@.len() + ct.fields@.len())
}

/// The first `k` steps of the walk into `ct` take the output from `o0` to `o`: through an
/// output after each step (each output grows from the one before), first each parent in order is walked at its offset under
/// `path` and `Parent(i)`, then each field in order that is not skipped is visited at its
/// offset under `path` and its name.
pub open spec fn ct_steps(input: Input, o0: Output, o: Output, ct: CompositeType, addr: u64, path: Seq<PathStep>, b: u64, k: nat) -> bool
    decreases b, 3int, k,
{
    if k == 0 {
        o == o0
    } else {
        let np = ct.parents@.len();
        exists|om: Output| #[trigger] grows(om, o) && ct_steps(input, o0, om, ct, addr, path, b, (k - 1) as nat) && if k - 1 < np {
            parent_walked(input, om, o, ct.parents@[k - 1], k - 1, addr, path, b)
        } else {
            field_walked(input, ct, om, o, ct.fields@[k - 1 - np], addr, path, b)
        }
    }
}

/// The walk of parent number `i` of a struct at `addr` (its offset and type), with `b`
/// levels left for the struct's own walk.
pub open spec fn parent_walked(input: Input, o0: Output, o1: Output, par: (u64, TypeRef), i: int, addr: u64, path: Seq<PathStep>, b: u64) -> bool
    decreases b, 1int, 0nat,
{
    match input.debug.spec_type(par.1) {
        Some(Type::Struct(pct)) => match addr_add(addr, par.0) {
            Some(a) => b > 0 && 0 <= i <= usize::MAX
                && ct_walked(input, o0, o1, pct, a, path.push(PathStep::Parent(i as usize)), (b - 1) as u64),
            None => false,
        },
        _ => false,
    }
}

/// The visit of field `f` of the struct `ct` at `addr`, with `b` levels left for the
/// struct's own walk: a skipped field leaves the output as it is.
pub open spec fn field_walked(input: Input, ct: CompositeType, o0: Output, o1: Output, f: CompositeField, addr: u64, path: Seq<PathStep>, b: u64) -> bool
    decreases b, 1int, 0nat,
{
    if field_skipped(ct, f) {
        o1 == o0
    } else {
        field_visited(input, o0, o1, f, addr, path, b)
    }
}

/// The visit of field `f` at `addr` plus its offset, under `path` and its name, with one
/// level less than `b`.
pub open spec fn field_visited(input: Input, o0: Output, o1: Output, f: CompositeField, addr: u64, path: Seq<PathStep>, b: u64) -> bool
    decreases b, 0int, 0nat,
{
    match input.debug.spec_type(f.ty) {
        Some(fty) => match addr_add(addr, f.offset) {
            Some(a) => b > 0 && visited(input, o0, o1, fty, a, path.push(PathStep::Field(f.name@)), (b - 1) as u64),
            None => false,
        },
        None => false,
    }
}

/// A successful walk into a mrustc tagged union named `name` at `addr` whose data is at
/// offset `dofs`, whose current variant is `v` and whose other fields are `fs`, with
/// `budget` levels: the variant is counted and visited, giving `ov` (see `variant_part`);
/// then each other field in order is visited at its offset under `path` and its name (see
/// `tu_steps`).
pub open spec fn tu_walked(input: Input, o0: Output, o1: Output, name: Seq<char>, dofs: u64, v: Option<(Seq<char>, Type)>,
    fs: Seq<CompositeField>, addr: u64, path: Seq<PathStep>, budget: u64) -> bool
    decreases budget, 4int, 0nat,
{
    budget > 0 && exists|ov: Output| #[trigger] grows(o0, ov) && tu_steps(input, ov, o1, fs, addr, path, budget, fs.len())
        && variant_part(input, o0, ov, name, dofs, v, addr, path, budget)
}

/// The variant `v` of a mrustc tagged union named `name` at `addr` (data at offset
/// `dofs`), where there is one, counted once more and visited at the data's offset under
/// `path` and the variant's name, takes the output from `o0` to `ov`; where there is none,
/// `ov` is `o0`.
pub open spec fn variant_part(input: Input, o0: Output, ov: Output, name: Seq<char>, dofs: u64, v: Option<(Seq<char>, Type)>,
    addr: u64, path: Seq<PathStep>, budget: u64) -> bool
    decreases budget, 2int, 0nat,
{
    match v {
        None => ov == o0,
        Some((n, vty)) => variant_walked(input, o0, ov, name, dofs, n, vty, addr, path, budget),
    }
}

/// The variant named `n` (of type `vty`) of a mrustc tagged union named `name` at `addr`,
/// counted once more and then visited at offset `dofs` under `path` and `n`, takes the
/// output from `o0` to `ov`.
pub open spec fn variant_walked(input: Input, o0: Output, ov: Output, name: Seq<char>, dofs: u64, n: Seq<char>, vty: Type,
    addr: u64, path: Seq<PathStep>, budget: u64) -> bool
    decreases budget, 1int, 0nat,
{
    exists|oc: Output| #[trigger] variant_counted(o0, oc, name, n) && match addr_add(addr, dofs) {
        Some(a) => budget > 0 && visited(input, oc, ov, vty, a, path.push(PathStep::Field(n)), (budget - 1) as u64),
        None => false,
    }
}

/// The first `k` of the fields `fs` of a struct at `addr`, visited in order, take the
/// output from `o0` to `o`.
pub open spec fn tu_steps(input: Input, o0: Output, o: Output, fs: Seq<CompositeField>, addr: u64, path: Seq<PathStep>, b: u64, k: nat) -> bool
    decreases b, 3int, k,
{
    if k == 0 {
        o == o0
    } else {
        exists|om: Output| #[trigger] grows(om, o) && tu_steps(input, o0, om, fs, addr, path, b, (k - 1) as nat)
            && field_visited(input, om, o, fs[k - 1], addr, path, b)
    }
}

proof fn lemma_visited_intro(input: Input, o0: Output, om: Output, o1: Output, ty: Type, t: Type, addr: u64, path: Seq<PathStep>, budget: u64)
    requires
        budget > 0,
        effective_type(*input.debug, *input.dump, ty, addr) == Some(t),
        grows(o0, o1),
        claims_at(path) ==> claim_fits(input, t, addr),
        own_claimed(input, o0, om, t, addr, path, claims_at(path)),
        t matches Type::Struct(ct) ==> struct_walked(input, om, o1, t, ct, addr, path, budget),
        t matches Type::Varianted(e) ==> enum_walked(input, om, o1, e, addr, path, budget),
    ensures
        visited(input, o0, o1, ty, addr, path, budget),
{
}

proof fn lemma_variant_part_some(input: Input, o0: Output, oc: Output, ov: Output, name: Seq<char>, dofs: u64, n: Seq<char>, vty: Type,
    a: u64, addr: u64, path: Seq<PathStep>, budget: u64)
    requires
        budget > 0,
        variant_counted(o0, oc, name, n),
        addr_add(addr, dofs) == Some(a),
        visited(input, oc, ov, vty, a, path.push(PathStep::Field(n)), (budget - 1) as u64),
    ensures
        variant_part(input, o0, ov, name, dofs, Some((n, vty)), addr, path, budget),
{
    assert(variant_walked(input, o0, ov, name, dofs, n, vty, addr, path, budget));
}

proof fn lemma_item_steps_next(input: Input, o0: Output, o: Output, o2: Output, t: Type, begin: u64, step: u64, path: Seq<PathStep>,
    claim: bool, b: u64, k: nat)
    requires
        item_steps(input, o0, o, t, begin, step, path, claim, b, k),
        grows(o, o2),
        item_walked(input, o, o2, t, begin, step, path, claim, b, k as int),
    ensures
        item_steps(input, o0, o2, t, begin, step, path, claim, b, k + 1),
{
    let k1: nat = k + 1;
    assert((k1 - 1) as nat == k);
    assert(k1 - 1 == k as int);
    assert(item_steps(input, o0, o, t, begin, step, path, claim, b, (k1 - 1) as nat));
}

proof fn lemma_node_steps_next(input: Input, o0: Output, o: Output, o2: Output, t: Type, first: CppMapNode, path: Seq<PathStep>, b: u64, k: nat)
    requires
        node_steps(input, o0, o, t, first, path, b, k),
        grows(o, o2),
        node_walked(input, o, o2, t, first, path, b, k as int),
    ensures
        node_steps(input, o0, o2, t, first, path, b, k + 1),
{
    let k1: nat = k + 1;
    assert((k1 - 1) as nat == k);
    assert(k1 - 1 == k as int);
    assert(node_steps(input, o0, o, t, first, path, b, (k1 - 1) as nat));
}

proof fn lemma_node_walked_intro(input: Input, o0: Output, oq: Output, o1: Output, t: Type, first: CppMapNode, path: Seq<PathStep>,
    b: u64, i: int, n: CppMapNode)
    requires
        0 <= i,
        map_nth(*input.dump, first, i as nat) == Some(n),
        n.addr + 0x20 <= u64::MAX,
        b > 0,
        own_claimed(input, o0, oq, t, (n.addr + 0x20) as u64, path.push(PathStep::Index(i as usize)), true),
        visited(input, oq, o1, t, (n.addr + 0x20) as u64, path.push(PathStep::Index(i as usize)), (b - 1) as u64),
    ensures
        node_walked(input, o0, o1, t, first, path, b, i),
{
}

proof fn lemma_unode_steps_next(input: Input, o0: Output, o: Output, o2: Output, t: Type, first: CppUnorderedMapNode, path: Seq<PathStep>,
    b: u64, k: nat, n: CppUnorderedMapNode, oq: Output)
    requires
        unode_steps(input, o0, o, t, first, path, b, k),
        grows(o, o2),
        unordered_nth(*input.dump, first, k) == Some(n),
        n.node_addr != 0,
        n.node_addr + n.data_ofs <= u64::MAX,
        b > 0,
        own_claimed(input, o, oq, t, (n.node_addr + n.data_ofs) as u64, path.push(PathStep::Index(k as int as usize)), true),
        visited(input, oq, o2, t, (n.node_addr + n.data_ofs) as u64, path.push(PathStep::Index(k as int as usize)), (b - 1) as u64),
    ensures
        unode_steps(input, o0, o2, t, first, path, b, k + 1),
{
    assert(unode_walked(input, o, o2, t, first, path, b, k as int));
    let k1: nat = k + 1;
    assert((k1 - 1) as nat == k);
    assert(k1 - 1 == k as int);
    assert(unode_steps(input, o0, o, t, first, path, b, (k1 - 1) as nat));
}

proof fn lemma_ct_steps_next(input: Input, o0: Output, o: Output, o2: Output, ct: CompositeType, addr: u64, path: Seq<PathStep>, b: u64, k: nat)
    requires
        ct_steps(input, o0, o, ct, addr, path, b, k),
        grows(o, o2),
        k < ct.parents@.len() ==> parent_walked(input, o, o2, ct.parents@[k as int], k as int, addr, path, b),
        k >= ct.parents@.len() ==> field_walked(input, ct, o, o2, ct.fields@[k - ct.parents@.len()], addr, path, b),
    ensures
        ct_steps(input, o0, o2, ct, addr, path, b, k + 1),
{
    let k1: nat = k + 1;
    assert((k1 - 1) as nat == k);
    assert(ct_steps(input, o0, o, ct, addr, path, b, (k1 - 1) as nat));
}

proof fn lemma_tu_steps_next(input: Input, o0: Output, o: Output, o2: Output, fs: Seq<CompositeField>, addr: u64, path: Seq<PathStep>, b: u64, k: nat)
    requires
        tu_steps(input, o0, o, fs, addr, path, b, k),
        grows(o, o2),
        field_visited(input, o, o2, fs[k as int], addr, path, b),
    ensures
        tu_steps(input, o0, o2, fs, addr, path, b, k + 1),
{
    let k1: nat = k + 1;
    assert((k1 - 1) as nat == k);
    assert(tu_steps(input, o0, o, fs, addr, path, b, (k1 - 1) as nat));
}

/// `addr + ofs`, or a failed read when it overflows.
fn offset(addr: u64, ofs: u64) -> (r: Result<u64, ReadError>)
    ensures
        match r {
            Ok(a) => a == addr + ofs,
            Err(_) => addr + ofs > u64::MAX,
        },
{
    if ofs > u64::MAX - addr {
        Err(())
    } else {
        Ok(addr + ofs)
    }
}

/// The area of a `ty` at `addr` ends, with the rounding of the used-memory map, within
/// the address space.
pub open spec fn claim_fits(input: Input, ty: Type, addr: u64) -> bool {
    claim_size(input, ty) <= u64::MAX - 15 && addr <= u64::MAX - 15 - claim_size(input, ty)
}

/// What visiting a value whose effective type is `t` gives, where that type leaves nothing
/// to walk into (with `claims` when the value is the root or a pointer's target): the
/// claim must fit; a primitive, C-like enum or union is then done, a pointer is read (its
/// target is not owned), and an array or an unresolved alias fails. Without a claim the
/// output is unchanged. A claim that does not fit fails whatever the type.
pub open spec fn visit_leaf(input: Input, o0: Output, o1: Output, t: Option<Type>, addr: u64, claims: bool, ok: bool) -> bool {
    match t {
        None => true,
        Some(t) => {
            &&& (claims && !claim_fits(input, t, addr)) ==> !ok
            &&& (t is Primtive || t is Enum || t is Union) ==> (ok <==> (!claims || claim_fits(input, t, addr)))
            &&& (t is Array || t is Alias) ==> !ok
            &&& t is Pointer ==> (ok <==> ((!claims || claim_fits(input, t, addr)) && spec_read(*input.dump, addr, 8) is Some))
            &&& (!claims && !(t is Struct) && !(t is Varianted)) ==> o1 == o0
        },
    }
}

/// Claims `ty` at `addr` for `path`, refusing an area beyond the address space.
fn claim_checked(input: &Input, output: &mut Output, path: &Path, addr: u64, ty: &Type) -> (r: Result<(), ReadError>)
    requires
        old(output).wf(),
    ensures
        grows(*old(output), *final(output)),
        r is Ok <==> claim_fits(*input, *ty, addr),
        r is Ok ==> area_units(addr, claim_size(*input, *ty)).subset_of(final(output).used_memory.view()),
        r is Ok ==> final(output).used_memory.view() == old(output).used_memory.view().union(
            area_units(addr, claim_size(*input, *ty))),
        r is Ok ==> own_claimed(*input, *old(output), *final(output), *ty, addr, path@, true),
        r is Err ==> *final(output) == *old(output),
{
    let size: u64 = match input.debug.size_of(ty) {
        Some(s) => s as u64,
        None => 0,
    };
    assert(size == claim_size(*input, *ty));
    if size > u64::MAX - 15 || addr > u64::MAX - 15 - size {
        return Err(());
    }
    output.claim(input, path, addr, ty);
    proof {
        assert forall|k: Seq<char>| #[trigger] count_of(named_map(old(output).usage@), k) <= count_of(named_map(output.usage@), k) by {
            lemma_add_all_monotone(named_map(old(output).usage@), usage_keys(path@), size, k);
        }
    }
    Ok(())
}

/// Claims the `size` bytes at `addr` for `path`, refusing an area beyond the address space.
fn claim_raw_checked(output: &mut Output, path: &Path, addr: u64, size: u64, assoc: bool) -> (r: Result<(), ReadError>)
    requires
        old(output).wf(),
    ensures
        grows(*old(output), *final(output)),
        r is Ok <==> raw_fits(addr, size),
        r is Ok ==> area_units(addr, size).subset_of(final(output).used_memory.view()),
        r is Ok ==> final(output).used_memory.view() == old(output).used_memory.view().union(area_units(addr, size)),
        r is Ok && !assoc ==> named_map(final(output).usage@) == named_map(old(output).usage@),
        r is Ok ==> final(output).shared_pointers@ == old(output).shared_pointers@
            && final(output).root_type_counts == old(output).root_type_counts
            && final(output).enum_variant_counts == old(output).enum_variant_counts,
        r is Err ==> *final(output) == *old(output),
{
    if size > u64::MAX - 15 || addr > u64::MAX - 15 - size {
        return Err(());
    }
    output.claim_raw(path, addr, size, assoc);
    proof {
        assert forall|k: Seq<char>| #[trigger] count_of(named_map(old(output).usage@), k) <= count_of(named_map(output.usage@), k) by {
            lemma_add_all_monotone(named_map(old(output).usage@), usage_keys(path@), size, k);
        }
    }
    Ok(())
}

/// `o1` holds what `o0` held and nothing more: the same memory marked, usage, shared
/// pointers and counts.
pub open spec fn same_output(o0: Output, o1: Output) -> bool {
    &&& o1.used_memory.view() == o0.used_memory.view()
    &&& o1.usage == o0.usage
    &&& o1.shared_pointers@ == o0.shared_pointers@
    &&& o1.root_type_counts == o0.root_type_counts
    &&& o1.enum_variant_counts == o0.enum_variant_counts
}

/// The pointer field `field` of `ty`: its offset and the type it points to, when the
/// field exists, is a pointer and its target's slot is filled.
pub open spec fn ptr_field_target(p: DebugPool, ty: Type, field: Seq<char>) -> Option<(u64, Type)> {
    match field_walk(p, ty, seq![PathStep::Field(field)]) {
        Some((o, pt)) => match p.spec_type(pt) {
            Some(Type::Pointer(inner, _)) => match p.spec_type(inner) {
                Some(t) => Some((o, t)),
                None => None,
            },
            _ => None,
        },
        None => None,
    }
}

/// The field `f` of the struct `ct` is not walked into: a virtual-table pointer, or the
/// data pointer inside a `shared_ptr`'s count block (the data is reached from the
/// `shared_ptr`).
pub open spec fn field_skipped(ct: CompositeType, f: CompositeField) -> bool {
    spec_starts_with(f.name@, "_vptr."@)
        || (spec_starts_with(ct.name@, "std::_Sp_counted_ptr<"@) && f.name@ == "_M_ptr"@)
}

/// The variant of the enum `e` at `addr` that a visit selects: by its discriminant where
/// it has one (see `chosen_variant`), else the first variant.
pub open spec fn enum_variant_at(d: CoreDump, e: Enum, addr: u64) -> Result<Option<int>, ()> {
    match e.discr_ofs {
        Some(o) => match addr_add(addr, o) {
            Some(a) => chosen_variant(d, e.variants@, a),
            None => Err(()),
        },
        None => Ok(if e.variants@.len() > 0 { Some(0) } else { None }),
    }
}

/// The name under which variant `i` of `e` is counted: the name of its field when it has
/// exactly one, else `#` and its number.
pub open spec fn variant_label(e: Enum, i: int) -> Seq<char> {
    if e.variants@[i].fields@.len() == 1 {
        e.variants@[i].fields@[0].name@
    } else {
        seq!['#'] + spec_decimal(i as nat)
    }
}

/// The variant that a visit of the enum `e` at `addr` selects, if any, is counted in `o`.
pub open spec fn enum_counted(input: Input, e: Enum, addr: u64, o: Output) -> bool {
    match enum_variant_at(*input.dump, e, addr) {
        Ok(Some(i)) => variant_count(o, e.outer.name@, variant_label(e, i)) >= 1,
        Ok(None) => true,
        Err(_) => false,
    }
}

/// Whether the discriminant value `dv` matches the bytes at `addr` (a byte string, or an
/// integer of 1, 2, 4 or 8 little-endian bytes); `Err` for a byte string longer than 16,
/// an integer of another size, or bytes that cannot be read.
pub open spec fn discr_matches(d: CoreDump, dv: VariantDiscr, addr: u64) -> Result<bool, ()> {
    match dv {
        VariantDiscr::Data(des) => if des@.len() > 16 {
            Err(())
        } else {
            match spec_read(d, addr, des@.len()) {
                Some(b) => Ok(b == des@),
                None => Err(()),
            }
        },
        VariantDiscr::SingleU(v, sz) => if !(sz == 1 || sz == 2 || sz == 4 || sz == 8) {
            Err(())
        } else {
            match spec_read(d, addr, sz as nat) {
                Some(b) => Ok(le_match(b, v)),
                None => Err(()),
            }
        },
    }
}

/// Whether one of the discriminant values `dvs` matches, trying them in turn.
pub open spec fn any_discr_matches(d: CoreDump, dvs: Seq<VariantDiscr>, addr: u64) -> Result<bool, ()>
    decreases dvs.len(),
{
    if dvs.len() == 0 {
        Ok(false)
    } else {
        match discr_matches(d, dvs[0], addr) {
            Err(_) => Err(()),
            Ok(true) => Ok(true),
            Ok(false) => any_discr_matches(d, dvs.drop_first(), addr),
        }
    }
}

/// The first variant one of whose discriminant values matches, trying them in turn.
pub open spec fn first_matching_variant(d: CoreDump, vs: Seq<EnumVariant>, addr: u64) -> Result<Option<int>, ()>
    decreases vs.len(),
{
    if vs.len() == 0 {
        Ok(None)
    } else {
        match any_discr_matches(d, vs[0].discr_vals@, addr) {
            Err(_) => Err(()),
            Ok(true) => Ok(Some(0)),
            Ok(false) => match first_matching_variant(d, vs.drop_first(), addr) {
                Err(_) => Err(()),
                Ok(Some(i)) => Ok(Some(i + 1)),
                Ok(None) => Ok(None),
            },
        }
    }
}

/// The first variant without discriminant values (the default one).
pub open spec fn first_default_variant(vs: Seq<EnumVariant>) -> Option<int>
    decreases vs.len(),
{
    if vs.len() == 0 {
        None
    } else if vs[0].discr_vals@.len() == 0 {
        Some(0)
    } else {
        match first_default_variant(vs.drop_first()) {
            Some(i) => Some(i + 1),
            None => None,
        }
    }
}

/// The variant of an enum whose discriminant is at `addr`: the first that matches, else
/// the default one.
pub open spec fn chosen_variant(d: CoreDump, vs: Seq<EnumVariant>, addr: u64) -> Result<Option<int>, ()> {
    match first_matching_variant(d, vs, addr) {
        Err(_) => Err(()),
        Ok(Some(i)) => Ok(Some(i)),
        Ok(None) => Ok(first_default_variant(vs)),
    }
}

pub open spec fn shifted(r: Result<Option<int>, ()>, k: int) -> Result<Option<int>, ()> {
    match r {
        Err(_) => Err(()),
        Ok(Some(i)) => Ok(Some(i + k)),
        Ok(None) => Ok(None),
    }
}

proof fn lemma_matching_skip(d: CoreDump, vs: Seq<EnumVariant>, addr: u64, k: int)
    requires
        0 <= k < vs.len(),
    ensures
        first_matching_variant(d, vs.skip(k), addr) == match any_discr_matches(d, vs[k].discr_vals@, addr) {
            Err(_) => Err(()),
            Ok(true) => Ok(Some(0)),
            Ok(false) => shifted(first_matching_variant(d, vs.skip(k + 1), addr), 1),
        },
{
    assert(vs.skip(k)[0] == vs[k]);
    assert(vs.skip(k).drop_first() =~= vs.skip(k + 1));
}

proof fn lemma_default_skip(vs: Seq<EnumVariant>, k: int)
    requires
        0 <= k < vs.len(),
    ensures
        first_default_variant(vs.skip(k)) == if vs[k].discr_vals@.len() == 0 {
            Some(0int)
        } else {
            match first_default_variant(vs.skip(k + 1)) {
                Some(i) => Some(i + 1),
                None => None,
            }
        },
{
    assert(vs.skip(k)[0] == vs[k]);
    assert(vs.skip(k).drop_first() =~= vs.skip(k + 1));
}

/// Whether a discriminant value matches the bytes at `addr` (see `discr_matches`).
fn discr_value_matches(input: &Input, dv: &VariantDiscr, addr: u64) -> (r: Result<bool, ReadError>)
    ensures
        match discr_matches(*input.dump, *dv, addr) {
            Err(_) => r is Err,
            Ok(b) => r == Ok::<bool, ReadError>(b),
        },
{
    match dv {
        VariantDiscr::Data(des) => {
            if des.len() > 16 {
                return Err(());
            }
            let mut buf: Vec<u8> = vec![0u8; des.len()];
            input.dump.read_bytes(addr, buf.as_mut_slice())?;
            Ok(bytes_equal(&buf, des))
        },
        VariantDiscr::SingleU(v, sz) => {
            if !(*sz == 1 || *sz == 2 || *sz == 4 || *sz == 8) {
                return Err(());
            }
            let mut buf: Vec<u8> = vec![0u8; *sz as usize];
            input.dump.read_bytes(addr, buf.as_mut_slice())?;
            Ok(le_bytes_match(&buf, *v))
        },
    }
}

/// The variant of an enum whose discriminant is at `discr_addr` (see `chosen_variant`).
fn find_variant(input: &Input, variants: &Vec<EnumVariant>, discr_addr: u64) -> (r: Result<Option<usize>, ReadError>)
    ensures
        match chosen_variant(*input.dump, variants@, discr_addr) {
            Err(_) => r is Err,
            Ok(None) => r == Ok::<Option<usize>, ReadError>(None),
            Ok(Some(i)) => r matches Ok(Some(j)) && j == i,
        },
        r matches Ok(Some(i)) ==> i < variants@.len(),
{
    let ghost d = *input.dump;
    let ghost vs = variants@;
    let n = variants.len();
    assert(vs.skip(0) =~= vs);
    for vi in 0..n
        invariant
            n == vs.len(),
            vs == variants@,
            d == *input.dump,
            shifted(first_matching_variant(d, vs.skip(vi as int), discr_addr), vi as int)
                == first_matching_variant(d, vs, discr_addr),
    {
        let var = &variants[vi];
        let ghost dvs = var.discr_vals@;
        proof { lemma_matching_skip(d, vs, discr_addr, vi as int); }
        let m = var.discr_vals.len();
        assert(dvs.skip(0) =~= dvs);
        for di in 0..m
            invariant
                m == dvs.len(),
                dvs == var.discr_vals@,
                d == *input.dump,
                n == vs.len(),
                vs == variants@,
                vi < n,
                dvs == vs[vi as int].discr_vals@,
                any_discr_matches(d, dvs.skip(di as int), discr_addr) == any_discr_matches(d, dvs, discr_addr),
                shifted(first_matching_variant(d, vs.skip(vi as int), discr_addr), vi as int)
                    == first_matching_variant(d, vs, discr_addr),
                first_matching_variant(d, vs.skip(vi as int), discr_addr) == match any_discr_matches(d, dvs, discr_addr) {
                    Err(_) => Err(()),
                    Ok(true) => Ok(Some(0int)),
                    Ok(false) => shifted(first_matching_variant(d, vs.skip(vi + 1), discr_addr), 1),
                },
        {
            assert(dvs.skip(di as int)[0] == dvs[di as int]);
            assert(dvs.skip(di as int).drop_first() =~= dvs.skip(di + 1));
            if discr_value_matches(input, &var.discr_vals[di], discr_addr)? {
                return Ok(Some(vi));
            }
        }
        assert(dvs.skip(m as int) =~= Seq::<VariantDiscr>::empty());
    }
    assert(vs.skip(n as int) =~= Seq::<EnumVariant>::empty());
    for vi in 0..n
        invariant
            n == vs.len(),
            vs == variants@,
            d == *input.dump,
            first_matching_variant(d, vs, discr_addr) == Ok::<Option<int>, ()>(None),
            match first_default_variant(vs.skip(vi as int)) {
                Some(i) => Some(i + vi) == first_default_variant(vs),
                None => first_default_variant(vs) is None,
            },
    {
        proof { lemma_default_skip(vs, vi as int); }
        if variants[vi].discr_vals.len() == 0 {
            assert(first_default_variant(vs.skip(vi as int)) == Some(0int));
            assert(first_default_variant(vs) == Some(vi as int));
            return Ok(Some(vi));
        }
    }
    Ok(None)
}

/// The two byte strings are equal.
fn bytes_equal(a: &Vec<u8>, b: &Vec<u8>) -> (r: bool)
    ensures
        r == (a@ == b@),
{
    if a.len() != b.len() {
        return false;
    }
    let n = a.len();
    for i in 0..n
        invariant
            n == a@.len() == b@.len(),
            forall|j: int| 0 <= j < i ==> a@[j] == b@[j],
    {
        if a[i] != b[i] {
            return false;
        }
    }
    assert(a@ =~= b@);
    true
}

/// The bytes `buf` are the little-endian encoding of the low `buf.len()` bytes of `v`.
pub open spec fn le_match(buf: Seq<u8>, v: u64) -> bool {
    forall|j: int| 0 <= j < buf.len() ==> #[trigger] buf[j] == ((v >> (8 * j) as u64) & 0xff) as u8
}

/// The place value of byte `j` of a little-endian number: 256 to the power `j`.
pub open spec fn byte_place(j: nat) -> nat
    decreases j,
{
    if j == 0 { 1 } else { 256 * byte_place((j - 1) as nat) }
}

proof fn lemma_shift_byte(v: u64, j: int)
    requires
        0 <= j < 8,
    ensures
        (((v >> (8 * j) as u64) & 0xff) as u8) as nat == (v as nat / byte_place(j as nat)) % 256,
{
    reveal_with_fuel(byte_place, 9);
    let sh = (8 * j) as u64;
    let x: u64 = (v >> sh) & 0xff;
    assert(x < 256) by (bit_vector)
        requires x == (v >> sh) & 0xff;
    assert((x as u8) as nat == x as nat);
    let q: u64 = if j == 0 { 1 } else if j == 1 { 0x100 } else if j == 2 { 0x1_0000 } else if j == 3 { 0x100_0000 }
        else if j == 4 { 0x1_0000_0000 } else if j == 5 { 0x100_0000_0000 } else if j == 6 { 0x1_0000_0000_0000 }
        else { 0x100_0000_0000_0000 };
    assert(byte_place(j as nat) == q as nat);
    if j == 0 {
        assert(x == (v / 1u64) % 256u64) by (bit_vector)
            requires
                x == (v >> sh) & 0xff,
                sh == 0u64;
    } else if j == 1 {
        assert(x == (v / 0x100u64) % 256u64) by (bit_vector)
            requires
                x == (v >> sh) & 0xff,
                sh == 8u64;
    } else if j == 2 {
        assert(x == (v / 0x1_0000u64) % 256u64) by (bit_vector)
            requires
                x == (v >> sh) & 0xff,
                sh == 16u64;
    } else if j == 3 {
        assert(x == (v / 0x100_0000u64) % 256u64) by (bit_vector)
            requires
                x == (v >> sh) & 0xff,
                sh == 24u64;
    } else if j == 4 {
        assert(x == (v / 0x1_0000_0000u64) % 256u64) by (bit_vector)
            requires
                x == (v >> sh) & 0xff,
                sh == 32u64;
    } else if j == 5 {
        assert(x == (v / 0x100_0000_0000u64) % 256u64) by (bit_vector)
            requires
                x == (v >> sh) & 0xff,
                sh == 40u64;
    } else if j == 6 {
        assert(x == (v / 0x1_0000_0000_0000u64) % 256u64) by (bit_vector)
            requires
                x == (v >> sh) & 0xff,
                sh == 48u64;
    } else {
        assert(x == (v / 0x100_0000_0000_0000u64) % 256u64) by (bit_vector)
            requires
                x == (v >> sh) & 0xff,
                sh == 56u64;
    }
}

/// A discriminant's bytes match a value exactly when they are its little-endian encoding:
/// byte `j` is the value divided by 256 to the power `j`, modulo 256 (the lowest byte
/// first).
pub proof fn law_le_match_little_endian(buf: Seq<u8>, v: u64)
    requires
        buf.len() <= 8,
    ensures
        le_match(buf, v) <==> forall|j: int| 0 <= j < buf.len() ==> #[trigger] buf[j] as nat == (v as nat / byte_place(j as nat)) % 256,
{
    assert forall|j: int| 0 <= j < buf.len() implies
        (#[trigger] buf[j] == ((v >> (8 * j) as u64) & 0xff) as u8 <==> buf[j] as nat == (v as nat / byte_place(j as nat)) % 256) by {
        lemma_shift_byte(v, j);
    }
}

fn le_bytes_match(buf: &Vec<u8>, v: u64) -> (r: bool)
    requires
        buf@.len() <= 8,
    ensures
        r == le_match(buf@, v),
{
    let n = buf.len();
    for i in 0..n
        invariant
            n == buf@.len() <= 8,
            forall|j: int| 0 <= j < i ==> #[trigger] buf@[j] == ((v >> (8 * j) as u64) & 0xff) as u8,
    {
        let sh = (8 * i) as u64;
        if buf[i] != ((v >> sh) & 0xff) as u8 {
            return false;
        }
    }
    true
}

/// Visits a (maybe smart) pointer field: the struct `ty` at `addr` holds, at the field
/// `field`, a pointer whose target is visited at `path.*`; with `shared`, only a target
/// not seen before.
fn visit_ptr_field(input: &Input, output: &mut Output, ty: &Type, addr: u64, path: &Path, field: &str, shared: bool, budget: u64) -> (r: Result<(), ReadError>)
    requires
        old(output).wf(),
    ensures
        grows(*old(output), *final(output)),
        match ptr_field_target(*input.debug, *ty, field@) {
            None => r is Err && *final(output) == *old(output),
            Some((o, t)) => match word_at(*input.dump, addr, o) {
                None => r is Err && *final(output) == *old(output),
                Some(pv) => if pv == 0 || (shared && old(output).shared_pointers@.contains(pv)) {
                    r is Ok && same_output(*old(output), *final(output))
                } else {
                    &&& shared ==> final(output).shared_pointers@.contains(pv)
                    &&& budget == 0 ==> r is Err
                    &&& r is Ok ==> match effective_type(*input.debug, *input.dump, t, pv) {
                        Some(e) => area_units(pv, claim_size(*input, e)).subset_of(final(output).used_memory.view()),
                        None => false,
                    }
                },
            },
        },
        r is Ok ==> ptr_walked(*input, *old(output), *final(output), *ty, field@, shared, addr, path@, budget),
    decreases budget, 0int,
{
    let fpath = Path::root().field(field);
    assert(fpath@ =~= seq![PathStep::Field(field@)]);
    let (ptr_o, ptr_ty) = match input.get_field(ty, fpath) {
        Some(x) => x,
        None => {
            return Err(());
        },
    };
    let inner_ty = match input.debug.try_get_type(&ptr_ty) {
        Some(Type::Pointer(inner, _)) => match input.debug.try_get_type(inner) {
            Some(t) => t,
            None => {
                return Err(());
            },
        },
        _ => {
            return Err(());
        },
    };
    let pa = offset(addr, ptr_o)?;
    let ptr_val = input.dump.read_ptr(pa)?;
    assert(word_at(*input.dump, addr, ptr_o) == Some(ptr_val));
    if ptr_val != 0 {
        let fresh = if shared { output.note_shared(ptr_val) } else { true };
        assert(grows(*old(output), *output));
        if shared {
            assert(output.shared_pointers@ == old(output).shared_pointers@.insert(ptr_val));
            if !fresh {
                assert(output.shared_pointers@ =~= old(output).shared_pointers@);
            }
        }
        let ghost o1 = *output;
        assert(shared ==> o1.shared_pointers@.contains(ptr_val));
        assert(noted(*old(output), o1, ptr_val, shared));
        if fresh {
            if budget == 0 {
                return Err(());
            }
            let dp = path.deref();
            visit_type(input, output, inner_ty, ptr_val, dp, budget - 1)?;
            assert(dp@.last() is Deref);
            assert(shared ==> output.shared_pointers@.contains(ptr_val));
            assert(visited(*input, o1, *output, *inner_ty, ptr_val, path@.push(PathStep::Deref), (budget - 1) as u64));
        } else {
            assert(same_output(*old(output), *output));
        }
    }
    Ok(())
}

/// Visits the parents and fields of the struct `ct` at `addr`.
fn visit_ct_inner(input: &Input, output: &mut Output, composite_type: &CompositeType, addr: u64, path: &Path, budget: u64) -> (r: Result<(), ReadError>)
    requires
        old(output).wf(),
    ensures
        grows(*old(output), *final(output)),
        r is Ok ==> ct_walked(*input, *old(output), *final(output), *composite_type, addr, path@, budget),
        budget == 0 ==> r is Err && *final(output) == *old(output),
        budget > 0 && composite_type.parents@.len() > 0
            && !(input.debug.spec_type(composite_type.parents@[0].1) matches Some(Type::Struct(_)))
            ==> r is Err && *final(output) == *old(output),
        budget > 0 && composite_type.parents@.len() == 0
            && (forall|i: int| 0 <= i < composite_type.fields@.len() ==> #[trigger] field_skipped(*composite_type, composite_type.fields@[i]))
            ==> r is Ok && *final(output) == *old(output),
    decreases budget, 1int,
{
    if budget == 0 {
        return Err(());
    }
    let np = composite_type.parents.len();
    for i in 0..np
        invariant
            np == composite_type.parents@.len(),
            budget > 0,
            grows(*old(output), *output),
            i == 0 ==> *output == *old(output),
            i > 0 ==> input.debug.spec_type(composite_type.parents@[0].1) matches Some(Type::Struct(_)),
            ct_steps(*input, *old(output), *output, *composite_type, addr, path@, budget, i as nat),
    {
        let (ofs, pty) = composite_type.parents[i];
        let ct = match input.debug.try_get_type(&pty) {
            Some(Type::Struct(ct)) => ct,
            _ => {
                return Err(());
            },
        };
        let a = offset(addr, ofs)?;
        let ghost before = *output;
        visit_ct_inner(input, output, ct, a, &path.parent(i), budget - 1)?;
        proof {
            assert(parent_walked(*input, before, *output, composite_type.parents@[i as int], i as int, addr, path@, budget));
            lemma_ct_steps_next(*input, *old(output), before, *output, *composite_type, addr, path@, budget, i as nat);
        }
    }
    let nf = composite_type.fields.len();
    for i in 0..nf
        invariant
            nf == composite_type.fields@.len(),
            np == composite_type.parents@.len(),
            budget > 0,
            grows(*old(output), *output),
            composite_type.parents@.len() > 0 ==> input.debug.spec_type(composite_type.parents@[0].1) matches Some(Type::Struct(_)),
            (composite_type.parents@.len() == 0
                && forall|j: int| 0 <= j < composite_type.fields@.len() ==> #[trigger] field_skipped(*composite_type, composite_type.fields@[j]))
                ==> *output == *old(output),
            ct_steps(*input, *old(output), *output, *composite_type, addr, path@, budget, (np + i) as nat),
    {
        let f = &composite_type.fields[i];
        let ghost before = *output;
        proof { reveal_strlit("_vptr."); reveal_strlit("std::_Sp_counted_ptr<"); reveal_strlit("_M_ptr"); }
        if str_starts_with(f.name.as_str(), "_vptr.") {
            // Skip VTable pointers
        } else if str_starts_with(composite_type.name.as_str(), "std::_Sp_counted_ptr<") && str_eq(f.name.as_str(), "_M_ptr") {
            // Skip the data pointer stored in shared_ptr's count (the data is reached from the shared_ptr)
        } else {
            assert(!field_skipped(*composite_type, composite_type.fields@[i as int]));
            let fty = match input.debug.try_get_type(&f.ty) {
                Some(t) => t,
                None => {
                    return Err(());
                },
            };
            let a = offset(addr, f.offset)?;
            visit_type(input, output, fty, a, path.field(f.name.as_str()), budget - 1)?;
        }
        proof {
            assert(grows(before, *output));
            assert(field_walked(*input, *composite_type, before, *output, composite_type.fields@[i as int], addr, path@, budget));
            assert(((np + i) as nat) - composite_type.parents@.len() == i);
            lemma_ct_steps_next(*input, *old(output), before, *output, *composite_type, addr, path@, budget, (np + i) as nat);
        }
    }
    Ok(())
}

/// Visits `count` items of type `item_ty` laid out every `step` bytes from `begin`, at
/// `path[i]`, claiming each first when `claim` is set.
fn visit_items(input: &Input, output: &mut Output, item_ty: &Type, begin: u64, step: u64, count: u64, path: &Path, claim: bool, budget: u64) -> (r: Result<(), ReadError>)
    requires
        old(output).wf(),
    ensures
        grows(*old(output), *final(output)),
        (r is Ok && claim) ==> forall|i: u64| i < count
            ==> #[trigger] item_area(begin, step, i, claim_size(*input, *item_ty)).subset_of(final(output).used_memory.view()),
        budget == 0 ==> r is Err && *final(output) == *old(output),
        budget > 0 && count == 0 ==> r is Ok && *final(output) == *old(output),
        r is Ok ==> begin + (count - 1) * step <= u64::MAX || count == 0,
        r is Ok ==> item_steps(*input, *old(output), *final(output), *item_ty, begin, step, path@, claim, budget, count as nat),
    decreases budget, 0int,
{
    if budget == 0 {
        return Err(());
    }
    let mut i: u64 = 0;
    while i < count
        invariant
            budget > 0,
            grows(*old(output), *output),
            claim ==> forall|k: u64| k < i
                ==> #[trigger] item_area(begin, step, k, claim_size(*input, *item_ty)).subset_of(output.used_memory.view()),
            i <= count,
            i == 0 ==> *output == *old(output),
            i > 0 ==> begin + (i - 1) * step <= u64::MAX,
            item_steps(*input, *old(output), *output, *item_ty, begin, step, path@, claim, budget, i as nat),
        decreases count - i,
    {
        let ghost o_before = *output;
        assert((i as u128) * (step as u128) <= u128::MAX) by (nonlinear_arith)
            requires
                i <= u64::MAX,
                step <= u64::MAX;
        let prod = (i as u128) * (step as u128);
        if prod > (u64::MAX - begin) as u128 {
            return Err(());
        }
        let a = begin + prod as u64;
        let ip = path.index(i as usize);
        if claim {
            claim_checked(input, output, &ip, a, item_ty)?;
        }
        let ghost o_mid = *output;
        assert(own_claimed(*input, o_before, o_mid, *item_ty, a, ip@, claim));
        visit_type(input, output, item_ty, a, ip, budget - 1)?;
        proof {
            assert(a == begin + i * step);
            assert(ip@ == path@.push(PathStep::Index(i as usize)));
            assert(item_walked(*input, o_before, *output, *item_ty, begin, step, path@, claim, budget, i as int));
            lemma_item_steps_next(*input, *old(output), o_before, *output, *item_ty, begin, step, path@, claim, budget, i as nat);
            if claim {
                let sz = claim_size(*input, *item_ty);
                assert(a == begin + i * step);
                assert(item_area(begin, step, i, sz) == area_units(a, sz));
                assert forall|k: u64| k < i + 1 implies #[trigger] item_area(begin, step, k, sz).subset_of(output.used_memory.view()) by {
                    if k < i {
                        assert(item_area(begin, step, k, sz).subset_of(o_before.used_memory.view()));
                    }
                    assert forall|u: int| item_area(begin, step, k, sz).contains(u) implies output.used_memory.view().contains(u) by {
                        if k < i {
                            assert(o_before.used_memory.view().contains(u));
                            assert(o_mid.used_memory.view().contains(u));
                        } else {
                            assert(o_mid.used_memory.view().contains(u));
                        }
                    }
                }
            }
        }
        i = i + 1;
    }
    Ok(())
}

/// A `std::string`: reads the first bytes of its text (to show it), then claims its heap
/// buffer (an inline buffer is part of the string).
fn visit_cpp_string(input: &Input, output: &mut Output, s: &CppString, path: &Path) -> (r: Result<(), ReadError>)
    requires
        old(output).wf(),
    ensures
        grows(*old(output), *final(output)),
        r is Ok <==> string_ok(s.len, s.capacity) && (s.ptr == 0 || head_readable(*input.dump, s.ptr, s.len))
            && (s.capacity == 0 || raw_fits(s.ptr, s.len)),
        known_result_string(*final(output), s.ptr, s.len, s.capacity, r is Ok),
        s.capacity == 0 ==> *final(output) == *old(output),
{
    if !(s.capacity == 0 || s.len <= s.capacity) || s.capacity >= 0x10_00000 {
        // Malformed std::string
        return Err(());
    }
    if s.ptr != 0 {
        read_head(input.dump, s.ptr, s.len)?;
    }
    if s.capacity != 0 {
        claim_raw_checked(output, &path.deref(), s.ptr, s.len, true)?;
    }
    Ok(())
}

/// A `std::unique_ptr`: visits its target, which it owns. A C++ smart pointer may hold a
/// target that cannot be read: a failed visit of the target is ignored, and what it
/// recorded before failing stays.
fn visit_unique_ptr(input: &Input, output: &mut Output, p: &CppUniquePtr, path: &Path, budget: u64) -> (r: Result<(), ReadError>)
    requires
        old(output).wf(),
        budget > 0,
    ensures
        r is Ok,
        grows(*old(output), *final(output)),
        known_target(*input, Known::UniquePtr(p.target_addr, *p.target_ty), *final(output), budget),
        p.target_addr == 0 || budget == 1 ==> *final(output) == *old(output),
    decreases budget, 0int,
{
    if p.target_addr != 0 {
        let _ = visit_type(input, output, p.target_ty, p.target_addr, path.deref(), budget - 1);
    }
    Ok(())
}

/// A `std::shared_ptr`: visits its target and its count block, each unless already seen.
/// As for a `std::unique_ptr`, a failed visit of either is ignored.
fn visit_shared_ptr(input: &Input, output: &mut Output, p: &CppSharedPtr, path: &Path, budget: u64) -> (r: Result<(), ReadError>)
    requires
        old(output).wf(),
        budget > 0,
    ensures
        grows(*old(output), *final(output)),
        r is Ok,
        known_result(*input, Known::SharedPtr(p.target_addr, p.count_addr), *final(output), true),
        shared_walked(*input, *old(output), *final(output), p.target_addr, *p.target_ty, p.count_addr, *p.count_ty, budget),
        (p.target_addr == 0 || old(output).shared_pointers@.contains(p.target_addr))
            && (p.count_addr == 0 || old(output).shared_pointers@.contains(p.count_addr))
            ==> same_output(*old(output), *final(output)),
    decreases budget, 0int,
{
    if p.target_addr != 0 {
        let fresh = output.note_shared(p.target_addr);
        let ghost o1 = *output;
        assert(grows(*old(output), *output));
        assert(o1.shared_pointers@.contains(p.target_addr));
        if fresh {
            assert(noted(*old(output), o1, p.target_addr, true));
            let _ = visit_type(input, output, p.target_ty, p.target_addr, path.field("data").deref(), budget - 1);
            assert(target_visit(*input, o1, *output, *p.target_ty, p.target_addr, budget));
        } else {
            assert(output.shared_pointers@ =~= old(output).shared_pointers@);
            assert(same_output(*old(output), *output));
        }
        assert(output.shared_pointers@.contains(p.target_addr));
    }
    let ghost o2 = *output;
    assert(shared_part(*input, *old(output), o2, p.target_addr, *p.target_ty, budget));
    assert(grows(*old(output), o2));
    let ghost quiet = (p.target_addr == 0 || old(output).shared_pointers@.contains(p.target_addr))
        && (p.count_addr == 0 || old(output).shared_pointers@.contains(p.count_addr));
    assert(quiet ==> same_output(*old(output), o2));
    if p.count_addr != 0 {
        let fresh = output.note_shared(p.count_addr);
        let ghost o3 = *output;
        assert(grows(*old(output), *output));
        assert(o3.shared_pointers@.contains(p.count_addr));
        assert(p.target_addr != 0 ==> o2.shared_pointers@.contains(p.target_addr));
        assert(p.target_addr != 0 ==> o3.shared_pointers@.contains(p.target_addr));
        if fresh {
            assert(noted(o2, o3, p.count_addr, true));
            let _ = visit_type(input, output, p.count_ty, p.count_addr, path.field("refcount").deref(), budget - 1);
            assert(target_visit(*input, o3, *output, *p.count_ty, p.count_addr, budget));
            assert(grows(o2, o3));
            assert(grows(o2, *output)) by {
                assert forall|u: int| #[trigger] o2.used_memory.view().contains(u) implies output.used_memory.view().contains(u) by {
                    assert(o3.used_memory.view().contains(u));
                }
                assert forall|x: u64| #[trigger] o2.shared_pointers@.contains(x) implies output.shared_pointers@.contains(x) by {
                    assert(o3.shared_pointers@.contains(x));
                }
                assert forall|t: Seq<char>, v: Seq<char>| #[trigger] variant_count(o2, t, v) <= variant_count(*output, t, v) by {
                    assert(variant_count(o2, t, v) <= variant_count(o3, t, v));
                }
                assert forall|k: Seq<char>| #[trigger] count_of(named_map(o2.usage@), k) <= count_of(named_map(output.usage@), k) by {
                    assert(count_of(named_map(o2.usage@), k) <= count_of(named_map(o3.usage@), k));
                }
            }
        } else {
            proof {
                assert(output.shared_pointers@ =~= o2.shared_pointers@);
                assert(same_output(o2, *output));
                assert(grows(o2, *output));
                if quiet {
                    assert(o2.shared_pointers@.contains(p.count_addr));
                    assert(output.shared_pointers@ =~= o2.shared_pointers@);
                    assert(same_output(*old(output), *output));
                }
            }
        }
        assert(quiet ==> !fresh);
        assert(output.shared_pointers@.contains(p.count_addr));
        assert(p.target_addr != 0 ==> output.shared_pointers@.contains(p.target_addr));
        assert(shared_part(*input, o2, *output, p.count_addr, *p.count_ty, budget));
    }
    assert(shared_part(*input, o2, *output, p.count_addr, *p.count_ty, budget));
    assert(grows(o2, *output));
    Ok(())
}

/// The items of a vector from `begin` to `end`: each claimed and visited at `path[i]`.
fn visit_vec_items(input: &Input, output: &mut Output, item_ty: &Type, begin: u64, end: u64, path: &Path, budget: u64) -> (r: Result<(), ReadError>)
    requires
        old(output).wf(),
        budget > 0,
        begin <= end,
    ensures
        grows(*old(output), *final(output)),
        r is Ok ==> items_claimed(*input, *final(output), begin, end, *item_ty),
        vec_items_outcome(*input, *old(output), *final(output), *item_ty, begin, end, budget, r is Ok),
        r is Ok ==> vec_walked(*input, *old(output), *final(output), begin, end, *item_ty, path@, budget),
    decreases budget, 1int,
{
    let inner_size = match input.debug.size_of(item_ty) {
        Some(s) => s as u64,
        None => {
            return Err(());
        },
    };
    assert(inner_size == claim_size(*input, *item_ty));
    if inner_size == 0 {
        return Err(());
    }
    let len = end - begin;
    let q = len / inner_size;
    let count = if len % inner_size != 0 && q < u64::MAX { q + 1 } else { q };
    assert(count == item_count(len, inner_size));
    assert(len == 0 ==> q == 0 && len % inner_size == 0) by (nonlinear_arith)
        requires
            q == len / inner_size,
            inner_size > 0;
    visit_items(input, output, item_ty, begin, inner_size, count, path, true, budget - 1)
}

/// A `std::vector`: its items, when its pointers are in order.
fn visit_cpp_vector(input: &Input, output: &mut Output, v: &CppVector, path: &Path, budget: u64) -> (r: Result<(), ReadError>)
    requires
        old(output).wf(),
        budget > 0,
    ensures
        grows(*old(output), *final(output)),
        known_result(*input, Known::CppVector(v.begin, v.end, v.alloc_end, *v.item_ty), *final(output), r is Ok),
        type_size(*input.debug, *v.item_ty, input.debug.types@.len()) is None ==> r is Err && *final(output) == *old(output),
        type_size(*input.debug, *v.item_ty, input.debug.types@.len()) is Some && !(v.begin <= v.end <= v.alloc_end)
            ==> r is Ok && *final(output) == *old(output),
        v.begin <= v.end <= v.alloc_end
            ==> vec_items_outcome(*input, *old(output), *final(output), *v.item_ty, v.begin, v.end, budget, r is Ok),
        r is Ok && v.begin <= v.end <= v.alloc_end ==> vec_walked(*input, *old(output), *final(output), v.begin, v.end, *v.item_ty, path@, budget),
    decreases budget, 2int,
{
    if input.debug.size_of(v.item_ty).is_none() {
        return Err(());
    }
    if !(v.begin <= v.end && v.end <= v.alloc_end) {
        // Malformed std::vector
        return Ok(());
    }
    visit_vec_items(input, output, v.item_ty, v.begin, v.end, path, budget)
}

/// An `alloc::vec::Vec`: its items; pointers out of order fail.
fn visit_rust_vec(input: &Input, output: &mut Output, v: &AllocVec, path: &Path, budget: u64) -> (r: Result<(), ReadError>)
    requires
        old(output).wf(),
        budget > 0,
    ensures
        grows(*old(output), *final(output)),
        known_result(*input, Known::RustVec(v.begin, v.end, v.alloc_end, *v.item_ty), *final(output), r is Ok),
        !(v.begin <= v.end <= v.alloc_end) ==> r is Err && *final(output) == *old(output),
        v.begin <= v.end <= v.alloc_end
            ==> vec_items_outcome(*input, *old(output), *final(output), *v.item_ty, v.begin, v.end, budget, r is Ok),
        r is Ok && v.begin <= v.end <= v.alloc_end ==> vec_walked(*input, *old(output), *final(output), v.begin, v.end, *v.item_ty, path@, budget),
    decreases budget, 2int,
{
    if !(v.begin <= v.end && v.end <= v.alloc_end) {
        return Err(());
    }
    visit_vec_items(input, output, v.item_ty, v.begin, v.end, path, budget)
}

/// A `std::map`: each node's item, claimed and visited at `path[i]`, in order.
#[verifier::rlimit(40)]
fn visit_cpp_map(input: &Input, output: &mut Output, m: &CppMap, path: &Path, budget: u64) -> (r: Result<(), ReadError>)
    requires
        old(output).wf(),
        budget > 0,
    ensures
        grows(*old(output), *final(output)),
        known_result(*input, Known::CppMap(*m.item_type, m.cur_node, m.node_count), *final(output), r is Ok),
        m.node_count == 0 ==> r is Ok && *final(output) == *old(output),
        m.node_count > 0 && (m.cur_node.addr == 0 || m.cur_node.addr > u64::MAX - 0x20)
            ==> r is Err && *final(output) == *old(output),
        r is Ok ==> node_steps(*input, *old(output), *final(output), *m.item_type, m.cur_node, path@, budget, m.node_count as nat),
    decreases budget, 0int,
{
    let mut n = m.cur_node;
    let mut i: u64 = 0;
    while i < m.node_count
        invariant
            budget > 0,
            grows(*old(output), *output),
            map_nth(*input.dump, m.cur_node, i as nat) == Some(n),
            i == 0 ==> *output == *old(output),
            i <= m.node_count,
            (m.cur_node.addr == 0 || m.cur_node.addr > u64::MAX - 0x20) ==> i == 0,
            forall|k: u64| k < i ==> #[trigger] map_item_claimed(*input, *output, m.cur_node, k, *m.item_type),
            node_steps(*input, *old(output), *output, *m.item_type, m.cur_node, path@, budget, i as nat),
        decreases m.node_count - i,
    {
        let ghost o_before = *output;
        if n.is_nil() || n.addr > u64::MAX - 0x20 {
            return Err(());
        }
        let ip = path.index(i as usize);
        claim_checked(input, output, &ip, n.data_addr(), m.item_type)?;
        let ghost o_mid = *output;
        assert(own_claimed(*input, o_before, o_mid, *m.item_type, (n.addr + 0x20) as u64, ip@, true));
        visit_type(input, output, m.item_type, n.data_addr(), ip, budget - 1)?;
        proof {
            assert(ip@ == path@.push(PathStep::Index(i as usize)));
            assert(map_nth(*input.dump, m.cur_node, (i as int) as nat) == Some(n));
            lemma_node_walked_intro(*input, o_before, o_mid, *output, *m.item_type, m.cur_node, path@, budget, i as int, n);
            lemma_node_steps_next(*input, *old(output), o_before, *output, *m.item_type, m.cur_node, path@, budget, i as nat);
            let sz = claim_size(*input, *m.item_type);
            assert forall|k: u64| k < i + 1 implies #[trigger] map_item_claimed(*input, *output, m.cur_node, k, *m.item_type) by {
                if k < i {
                    assert(map_item_claimed(*input, o_before, m.cur_node, k, *m.item_type));
                }
                let nk = map_nth(*input.dump, m.cur_node, k as nat)->Some_0;
                let area = area_units((nk.addr + 0x20) as u64, sz);
                assert forall|u: int| area.contains(u) implies output.used_memory.view().contains(u) by {
                    if k < i {
                        assert(o_before.used_memory.view().contains(u));
                    }
                    assert(o_mid.used_memory.view().contains(u));
                }
            }
        }
        n = n.next(input.dump, u64::MAX)?;
        i = i + 1;
    }
    Ok(())
}

/// A `std::unordered_map`: each node's item, claimed and visited at `path[i]`, following
/// the links.
fn visit_cpp_unordered_map(input: &Input, output: &mut Output, m: &CppUnorderedMap, path: &Path, budget: u64) -> (r: Result<(), ReadError>)
    requires
        old(output).wf(),
        budget > 0,
    ensures
        grows(*old(output), *final(output)),
        known_result(*input, Known::CppUnorderedMap(*m.item_type, m.first_node), *final(output), r is Ok),
        m.first_node.node_addr == 0 ==> r is Ok && *final(output) == *old(output),
        m.first_node.node_addr != 0 && m.first_node.node_addr + m.first_node.data_ofs > u64::MAX
            ==> r is Err && *final(output) == *old(output),
        r is Ok ==> unordered_walked(*input, *old(output), *final(output), *m.item_type, m.first_node, path@, budget),
    decreases budget, 0int,
{
    let mut n = m.first_node;
    let mut i: u64 = 0;
    while !n.is_nil() && i < u64::MAX
        invariant
            budget > 0,
            grows(*old(output), *output),
            unordered_nth(*input.dump, m.first_node, i as nat) == Some(n),
            i == 0 ==> *output == *old(output),
            (m.first_node.node_addr == 0 || m.first_node.node_addr + m.first_node.data_ofs > u64::MAX) ==> i == 0,
            n.data_ofs == m.first_node.data_ofs,
            forall|k: u64| k < i ==> #[trigger] unordered_item_claimed(*input, *output, m.first_node, k, *m.item_type),
            unode_steps(*input, *old(output), *output, *m.item_type, m.first_node, path@, budget, i as nat),
        decreases u64::MAX - i,
    {
        let ghost o_before = *output;
        if n.node_addr > u64::MAX - n.data_ofs {
            return Err(());
        }
        let ip = path.index(i as usize);
        claim_checked(input, output, &ip, n.data_addr(), m.item_type)?;
        let ghost o_mid = *output;
        assert(own_claimed(*input, o_before, o_mid, *m.item_type, (n.node_addr + n.data_ofs) as u64, ip@, true));
        visit_type(input, output, m.item_type, n.data_addr(), ip, budget - 1)?;
        proof {
            assert(ip@ == path@.push(PathStep::Index(i as int as usize)));
            lemma_unode_steps_next(*input, *old(output), o_before, *output, *m.item_type, m.first_node, path@, budget, i as nat, n, o_mid);
            let sz = claim_size(*input, *m.item_type);
            assert forall|k: u64| k < i + 1 implies #[trigger] unordered_item_claimed(*input, *output, m.first_node, k, *m.item_type) by {
                if k < i {
                    assert(unordered_item_claimed(*input, o_before, m.first_node, k, *m.item_type));
                }
                if unordered_nth(*input.dump, m.first_node, k as nat) is Some {
                    let nk = unordered_nth(*input.dump, m.first_node, k as nat)->Some_0;
                    if nk.node_addr != 0 {
                        let area = area_units((nk.node_addr + nk.data_ofs) as u64, sz);
                        assert forall|u: int| area.contains(u) implies output.used_memory.view().contains(u) by {
                            if k < i {
                                assert(o_before.used_memory.view().contains(u));
                            }
                            assert(o_mid.used_memory.view().contains(u));
                        }
                    }
                }
            }
        }
        n = n.next(input.dump)?;
        i = i + 1;
    }
    assert(unordered_end(*input.dump, m.first_node, i as nat));
    proof {
        assert forall|k: u64| k < u64::MAX implies #[trigger] unordered_item_claimed(*input, *output, m.first_node, k, *m.item_type) by {
            if k > i {
                lemma_unordered_past_nil(*input.dump, m.first_node, i as nat, k as nat);
            }
        }
    }
    Ok(())
}

/// A mrustc tagged union: counts and visits its current variant, then its other fields.
fn visit_tagged_union(input: &Input, output: &mut Output, union_name: &str, tu: &TaggedUnion, addr: u64, path: &Path, budget: u64) -> (r: Result<(), ReadError>)
    requires
        old(output).wf(),
        budget > 0,
    ensures
        grows(*old(output), *final(output)),
        tu.variant matches Some((n, _)) ==> variant_count(*final(output), union_name@, n@)
            >= sat_add(variant_count(*old(output), union_name@, n@), 1),
        r is Ok ==> tu_walked(*input, *old(output), *final(output), union_name@, tu.data_ofs, variant_view(tu.variant),
            tu.other_fields@, addr, path@, budget),
    decreases budget, 0int,
{
    let ghost mut oc: Output = *output;
    if let Some((name, vty)) = tu.variant {
        output.count_variant(union_name, name);
        proof { oc = *output; }
        assert forall|t: Seq<char>, v: Seq<char>| #[trigger] variant_count(*old(output), t, v) <= variant_count(*output, t, v) by {}
        assert(grows(*old(output), *output));
        assert(variant_count(*output, union_name@, name@) >= sat_add(variant_count(*old(output), union_name@, name@), 1));
        assert(variant_counted(*old(output), oc, union_name@, name@));
        let a = offset(addr, tu.data_ofs)?;
        visit_type(input, output, vty, a, path.field(name), budget - 1)?;
        assert(variant_count(*output, union_name@, name@) >= sat_add(variant_count(*old(output), union_name@, name@), 1));
        proof {
            assert(variant_view(tu.variant) == Some((name@, *vty)));
            lemma_variant_part_some(*input, *old(output), oc, *output, union_name@, tu.data_ofs, name@, *vty, a, addr, path@, budget);
        }
    }
    let ghost ov = *output;
    assert(variant_part(*input, *old(output), ov, union_name@, tu.data_ofs, variant_view(tu.variant), addr, path@, budget));
    let nf = tu.other_fields.len();
    for i in 0..nf
        invariant
            nf == tu.other_fields@.len(),
            budget > 0,
            grows(*old(output), ov),
            grows(*old(output), *output),
            variant_part(*input, *old(output), ov, union_name@, tu.data_ofs, variant_view(tu.variant), addr, path@, budget),
            tu.variant matches Some((n, _)) ==> variant_count(*output, union_name@, n@)
                >= sat_add(variant_count(*old(output), union_name@, n@), 1),
            tu_steps(*input, ov, *output, tu.other_fields@, addr, path@, budget, i as nat),
    {
        let f = &tu.other_fields[i];
        let ghost before = *output;
        let fty = match input.debug.try_get_type(&f.ty) {
            Some(t) => t,
            None => {
                return Err(());
            },
        };
        let a = offset(addr, f.offset)?;
        visit_type(input, output, fty, a, path.field(f.name.as_str()), budget - 1)?;
        proof {
            assert(grows(before, *output));
            assert(field_visited(*input, before, *output, tu.other_fields@[i as int], addr, path@, budget));
            lemma_tu_steps_next(*input, ov, before, *output, tu.other_fields@, addr, path@, budget, i as nat);
        }
    }
    assert(grows(*old(output), ov));
    Ok(())
}

/// A mrustc `ThinVector`: claims its whole allocation (without associating it with the
/// path), then visits its items.
fn visit_thin_vector(input: &Input, output: &mut Output, v: &ThinVector, path: &Path, budget: u64) -> (r: Result<(), ReadError>)
    requires
        old(output).wf(),
        budget > 0,
    ensures
        grows(*old(output), *final(output)),
        known_result(*input, Known::ThinVector(v.data_ptr, v.len, v.cap, *v.inner_ty), *final(output), r is Ok),
        type_size(*input.debug, *v.inner_ty, input.debug.types@.len()) is None ==> r is Err && *final(output) == *old(output),
        type_size(*input.debug, *v.inner_ty, input.debug.types@.len()) is Some ==> {
            let total = v.cap * claim_size(*input, *v.inner_ty);
            &&& (total > u64::MAX || !raw_fits(v.data_ptr, total as u64)) ==> r is Err && *final(output) == *old(output)
            &&& (total <= u64::MAX && raw_fits(v.data_ptr, total as u64) && v.len == 0) ==> {
                &&& (r is Ok <==> budget > 1)
                &&& final(output).used_memory.view() == old(output).used_memory.view().union(area_units(v.data_ptr, total as u64))
                &&& named_map(final(output).usage@) == named_map(old(output).usage@)
                &&& final(output).shared_pointers@ == old(output).shared_pointers@
                &&& final(output).enum_variant_counts == old(output).enum_variant_counts
            }
        },
        r is Ok ==> thin_walked(*input, *old(output), *final(output), v.data_ptr, v.len, v.cap, *v.inner_ty, path@, budget),
    decreases budget, 0int,
{
    let inner_size = match input.debug.size_of(v.inner_ty) {
        Some(s) => s as u64,
        None => {
            return Err(());
        },
    };
    assert(inner_size == claim_size(*input, *v.inner_ty));
    assert((v.cap as u128) * (inner_size as u128) <= u128::MAX) by (nonlinear_arith)
        requires
            v.cap <= u64::MAX,
            inner_size <= u64::MAX;
    let total = (v.cap as u128) * (inner_size as u128);
    if total > u64::MAX as u128 {
        return Err(());
    }
    claim_raw_checked(output, path, v.data_ptr, total as u64, false)?;
    let ghost o_mid = *output;
    assert(raw_marked(*old(output), o_mid, v.data_ptr, (v.cap * claim_size(*input, *v.inner_ty)) as u64));
    visit_items(input, output, v.inner_ty, v.data_ptr, inner_size, v.len, path, false, budget - 1)?;
    proof {
        let area = area_units(v.data_ptr, total as u64);
        assert forall|u: int| area.contains(u) implies output.used_memory.view().contains(u) by {
            assert(o_mid.used_memory.view().contains(u));
        }
    }
    Ok(())
}

/// A mrustc `RcString`: reads the first bytes of its text (to show it), then claims its
/// block (the struct and the characters) the first time it is seen.
fn visit_rc_string(input: &Input, output: &mut Output, ty: &Type, v: &RcString, path: &Path) -> (r: Result<(), ReadError>)
    requires
        old(output).wf(),
    ensures
        grows(*old(output), *final(output)),
        known_result(*input, Known::RcString(v.data_addr, v.string_ptr, v.string_len), *final(output), r is Ok),
        !(v.string_len == 0 || head_readable(*input.dump, v.string_ptr, v.string_len)) ==> r is Err && *final(output) == *old(output),
        (v.string_len == 0 || head_readable(*input.dump, v.string_ptr, v.string_len))
            && (v.data_addr == 0 || old(output).shared_pointers@.contains(v.data_addr))
            ==> r is Ok && same_output(*old(output), *final(output)),
        (v.string_len == 0 || head_readable(*input.dump, v.string_ptr, v.string_len))
            && v.data_addr != 0 && !old(output).shared_pointers@.contains(v.data_addr) ==> {
            &&& final(output).shared_pointers@ == old(output).shared_pointers@.insert(v.data_addr)
            &&& match type_size(*input.debug, *ty, input.debug.types@.len()) {
                None => r is Err && final(output).used_memory.view() == old(output).used_memory.view(),
                Some(own) => if own + v.string_len > u64::MAX {
                    r is Err && final(output).used_memory.view() == old(output).used_memory.view()
                } else {
                    &&& (r is Ok <==> raw_fits(v.data_addr, (own + v.string_len) as u64))
                    &&& r is Ok ==> final(output).used_memory.view()
                        == old(output).used_memory.view().union(area_units(v.data_addr, (own + v.string_len) as u64))
                    &&& named_map(final(output).usage@) == named_map(old(output).usage@)
                },
            }
        },
{
    if v.string_len > 0 {
        read_head(input.dump, v.string_ptr, v.string_len)?;
    }
    let fresh = if v.data_addr != 0 { output.note_shared(v.data_addr) } else { false };
    assert(grows(*old(output), *output));
    if v.data_addr != 0 && !fresh {
        assert(output.shared_pointers@ =~= old(output).shared_pointers@);
    }
    assert(v.data_addr != 0 ==> output.shared_pointers@.contains(v.data_addr));
    if fresh {
        let own = match input.debug.size_of(ty) {
            Some(s) => s as u64,
            None => {
                return Err(());
            },
        };
        if own > u64::MAX - v.string_len {
            return Err(());
        }
        claim_raw_checked(output, path, v.data_addr, own + v.string_len, false)?;
    }
    Ok(())
}

/// Visits a value of one of the known container, pointer or tagged-union types; `false`
/// when `ty` is none of them.
fn visit_known(input: &Input, output: &mut Output, ty: &Type, composite_type: &CompositeType, addr: u64, path: &Path, budget: u64) -> (r: Result<bool, ReadError>)
    requires
        old(output).wf(),
        budget > 0,
    ensures
        grows(*old(output), *final(output)),
        match known_at(*input, *ty, *composite_type, addr) {
            Err(_) => r is Err,
            Ok(None) => r == Ok::<bool, ReadError>(false) && *final(output) == *old(output),
            Ok(Some(k)) => {
                &&& r is Ok ==> r == Ok::<bool, ReadError>(true)
                &&& known_result(*input, k, *final(output), r is Ok)
                &&& known_target(*input, k, *final(output), budget)
                &&& k is SharedPtr ==> match shared_ptr_at(*input.debug, *input.dump, *ty, addr) {
                    Ok(Some((a, ta, c, tc))) => shared_walked(*input, *old(output), *final(output), a, ta, c, tc, budget),
                    _ => true,
                }
                &&& k is VectorOfBool ==> r == Ok::<bool, ReadError>(true) && *final(output) == *old(output)
                &&& r is Ok ==> match k {
                    Known::CppVector(vb, ve, va, t) => vb <= ve <= va ==> vec_walked(*input, *old(output), *final(output), vb, ve, t, path@, budget),
                    Known::RustVec(vb, ve, _, t) => vec_walked(*input, *old(output), *final(output), vb, ve, t, path@, budget),
                    Known::CppMap(t, first, count) => node_steps(*input, *old(output), *final(output), t, first, path@, budget, count as nat),
                    Known::ThinVector(dp, l, c, t) => thin_walked(*input, *old(output), *final(output), dp, l, c, t, path@, budget),
                    Known::CppUnorderedMap(t, first) => unordered_walked(*input, *old(output), *final(output), t, first, path@, budget),
                    _ => true,
                }
                &&& k is TaggedUnion ==> tagged_union_counted(*input, *ty, composite_type.name@, addr, *old(output), *final(output))
                &&& (k is TaggedUnion && r is Ok) ==> match tagged_union_at(*input.debug, *input.dump, *ty, addr) {
                    Ok(Some((dofs, v, fs, _))) => tu_walked(*input, *old(output), *final(output), composite_type.name@, dofs, v, fs, addr, path@, budget),
                    _ => true,
                }
                &&& known_quiet(*input, k, *old(output)) ==> r == Ok::<bool, ReadError>(true) && same_output(*old(output), *final(output))
            },
        },
    decreases budget, 4int,
{
    if let Some(s) = CppString::opt_read(input, ty, addr)? {
        visit_cpp_string(input, output, &s, path)?;
        return Ok(true);
    }
    if let Some(p) = CppUniquePtr::opt_read(input, ty, addr)? {
        visit_unique_ptr(input, output, &p, path, budget)?;
        return Ok(true);
    }
    if let Some(p) = CppSharedPtr::opt_read(input, ty, addr)? {
        visit_shared_ptr(input, output, &p, path, budget)?;
        return Ok(true);
    }
    if str_starts_with(composite_type.name.as_str(), "std::vector<bool") {
        return Ok(true);
    }
    if let Some(v) = CppVector::opt_read(input, ty, addr)? {
        visit_cpp_vector(input, output, &v, path, budget)?;
        return Ok(true);
    }
    visit_known_rest(input, output, ty, composite_type, addr, path, budget)
}

/// `visit_known` after the `std::vector` recogniser (see `known_rest`).
fn visit_known_rest(input: &Input, output: &mut Output, ty: &Type, composite_type: &CompositeType, addr: u64, path: &Path, budget: u64) -> (r: Result<bool, ReadError>)
    requires
        old(output).wf(),
        budget > 0,
    ensures
        grows(*old(output), *final(output)),
        match known_rest(*input, *ty, addr) {
            Err(_) => r is Err,
            Ok(None) => r == Ok::<bool, ReadError>(false) && *final(output) == *old(output),
            Ok(Some(k)) => {
                &&& r is Ok ==> r == Ok::<bool, ReadError>(true)
                &&& known_result(*input, k, *final(output), r is Ok)
                &&& r is Ok ==> match k {
                    Known::CppVector(vb, ve, va, t) => vb <= ve <= va ==> vec_walked(*input, *old(output), *final(output), vb, ve, t, path@, budget),
                    Known::RustVec(vb, ve, _, t) => vec_walked(*input, *old(output), *final(output), vb, ve, t, path@, budget),
                    Known::CppMap(t, first, count) => node_steps(*input, *old(output), *final(output), t, first, path@, budget, count as nat),
                    Known::ThinVector(dp, l, c, t) => thin_walked(*input, *old(output), *final(output), dp, l, c, t, path@, budget),
                    Known::CppUnorderedMap(t, first) => unordered_walked(*input, *old(output), *final(output), t, first, path@, budget),
                    _ => true,
                }
                &&& k is TaggedUnion ==> tagged_union_counted(*input, *ty, composite_type.name@, addr, *old(output), *final(output))
                &&& (k is TaggedUnion && r is Ok) ==> match tagged_union_at(*input.debug, *input.dump, *ty, addr) {
                    Ok(Some((dofs, v, fs, _))) => tu_walked(*input, *old(output), *final(output), composite_type.name@, dofs, v, fs, addr, path@, budget),
                    _ => true,
                }
                &&& known_quiet(*input, k, *old(output)) ==> r == Ok::<bool, ReadError>(true) && same_output(*old(output), *final(output))
            },
        },
    decreases budget, 3int,
{
    if let Some(m) = CppMap::opt_read(input, ty, addr)? {
        visit_cpp_map(input, output, &m, path, budget)?;
        return Ok(true);
    }
    if let Some(m) = CppUnorderedMap::opt_read(input, ty, addr)? {
        visit_cpp_unordered_map(input, output, &m, path, budget)?;
        return Ok(true);
    }

    // --- rust standard library ---
    if let Some(v) = AllocVec::opt_read(input, ty, addr)? {
        visit_rust_vec(input, output, &v, path, budget)?;
        return Ok(true);
    }
    if HashbrownMap::opt_read(input, ty, addr)?.is_some() {
        // Walking a hashbrown table is not implemented
        return Err(());
    }

    // --- MRustC helper types ---
    if let Some(tu) = TaggedUnion::opt_read(input, ty, addr)? {
        visit_tagged_union(input, output, composite_type.name.as_str(), &tu, addr, path, budget)?;
        return Ok(true);
    }
    if let Some(v) = ThinVector::opt_read(input, ty, addr)? {
        visit_thin_vector(input, output, &v, path, budget)?;
        return Ok(true);
    }
    let rc = RcString::opt_read(input, ty, addr);
    match rc {
        Err(e) => {
            return Err(e);
        },
        Ok(Some(v)) => {
            visit_rc_string(input, output, ty, &v, path)?;
            return Ok(true);
        },
        Ok(None) => {},
    }
    Ok(false)
}

/// Visits a struct: the known types first, then some mrustc smart pointers by name, then
/// (the fallback) its parents and fields.
fn visit_struct(input: &Input, output: &mut Output, ty: &Type, composite_type: &CompositeType, addr: u64, path: &Path, budget: u64) -> (r: Result<(), ReadError>)
    requires
        old(output).wf(),
        budget > 0,
    ensures
        grows(*old(output), *final(output)),
        known_at(*input, *ty, *composite_type, addr) is Err ==> r is Err,
        known_at(*input, *ty, *composite_type, addr) matches Ok(Some(k)) ==> known_result(*input, k, *final(output), r is Ok)
            && known_target(*input, k, *final(output), budget),
        known_at(*input, *ty, *composite_type, addr) == Ok::<Option<Known>, ()>(Some(Known::TaggedUnion))
            ==> tagged_union_counted(*input, *ty, composite_type.name@, addr, *old(output), *final(output)),
        known_at(*input, *ty, *composite_type, addr) matches Ok(Some(k)) && known_quiet(*input, k, *old(output))
            ==> r is Ok && same_output(*old(output), *final(output)),
        r is Ok ==> struct_walked(*input, *old(output), *final(output), *ty, *composite_type, addr, path@, budget),
    decreases budget, 5int,
{
    if visit_known(input, output, ty, composite_type, addr, path, budget)? {
        return Ok(());
    }
    // Some mrustc special types
    let name = composite_type.name.as_str();
    if str_eq(name, "RcString") {
        // interned string type, ignore for now
        return Ok(());
    }
    if str_eq(name, "Span") || str_eq(name, "HIR::TypeRef") {
        // A fixed-size reference-counted type
        return visit_ptr_field(input, output, ty, addr, path, "m_ptr", true, budget - 1);
    }
    if str_eq(name, "MIR::FunctionPointer") || str_eq(name, "HIR::ExprStatePtr") || str_eq(name, "HIR::ExprPtrInner") {
        return visit_ptr_field(input, output, ty, addr, path, "ptr", false, budget - 1);
    }
    if str_eq(name, "EncodedLiteralPtr") || str_eq(name, "MIR::EnumCachePtr") {
        return visit_ptr_field(input, output, ty, addr, path, "p", false, budget - 1);
    }
    if str_eq(name, "MacroRulesPtr") || str_eq(name, "HIR::CratePtr") || str_eq(name, "AST::ExprNodeP") {
        return visit_ptr_field(input, output, ty, addr, path, "m_ptr", false, budget - 1);
    }

    // --- Fallback: Recurse into the type ---
    visit_ct_inner(input, output, composite_type, addr, path, budget - 1)
}

/// Visits a tagged union (a Rust enum): its common fields, then the fields of the variant
/// that its discriminant selects.
fn visit_enum(input: &Input, output: &mut Output, e: &Enum, addr: u64, path: &Path, budget: u64) -> (r: Result<(), ReadError>)
    requires
        old(output).wf(),
        budget > 0,
    ensures
        grows(*old(output), *final(output)),
        r is Ok ==> enum_counted(*input, *e, addr, *final(output)),
        r is Ok ==> enum_walked(*input, *old(output), *final(output), *e, addr, path@, budget),
        e.outer.fields@.len() == 0 ==> match enum_variant_at(*input.dump, *e, addr) {
            Err(_) => r is Err && *final(output) == *old(output),
            Ok(None) => r is Ok && *final(output) == *old(output),
            Ok(Some(i)) => e.variants@[i].fields@.len() == 0 ==> {
                &&& r is Ok
                &&& final(output).used_memory == old(output).used_memory
                &&& final(output).usage == old(output).usage
                &&& final(output).shared_pointers@ == old(output).shared_pointers@
                &&& final(output).root_type_counts == old(output).root_type_counts
                &&& forall|t: Seq<char>, v: Seq<char>| #[trigger] variant_count(*final(output), t, v)
                    == if t == e.outer.name@ && v == variant_label(*e, i) {
                        sat_add(variant_count(*old(output), t, v), 1)
                    } else {
                        variant_count(*old(output), t, v)
                    }
            },
        },
    decreases budget, 5int,
{
    let nf = e.outer.fields.len();
    for i in 0..nf
        invariant
            nf == e.outer.fields@.len(),
            budget > 0,
            grows(*old(output), *output),
            i == 0 ==> *output == *old(output),
            tu_steps(*input, *old(output), *output, e.outer.fields@, addr, path@, budget, i as nat),
    {
        let f = &e.outer.fields[i];
        let ghost before = *output;
        let fty = match input.debug.try_get_type(&f.ty) {
            Some(t) => t,
            None => {
                return Err(());
            },
        };
        let a = offset(addr, f.offset)?;
        visit_type(input, output, fty, a, path.field(f.name.as_str()), budget - 1)?;
        proof {
            assert(grows(before, *output));
            assert(field_visited(*input, before, *output, e.outer.fields@[i as int], addr, path@, budget));
            lemma_tu_steps_next(*input, *old(output), before, *output, e.outer.fields@, addr, path@, budget, i as nat);
        }
    }
    let ghost om = *output;
    let ghost mut oc: Output = *output;
    assert(grows(*old(output), om));
    let variant = match e.discr_ofs {
        Some(o) => {
            let a = offset(addr, o)?;
            assert(addr_add(addr, o) == Some(a));
            assert(enum_variant_at(*input.dump, *e, addr) == chosen_variant(*input.dump, e.variants@, a));
            let found = find_variant(input, &e.variants, a)?;

            assert(enum_variant_at(*input.dump, *e, addr) == match found {
                Some(vi) => Ok::<Option<int>, ()>(Some(vi as int)),
                None => Ok::<Option<int>, ()>(None),
            });
            found
        },
        None => if e.variants.len() > 0 { Some(0) } else { None },
    };
    assert(enum_variant_at(*input.dump, *e, addr) == match variant {
        Some(vi) => Ok::<Option<int>, ()>(Some(vi as int)),
        None => Ok::<Option<int>, ()>(None),
    });
    if let Some(vi) = variant {
        let v = &e.variants[vi];
        let vname = if v.fields.len() == 1 {
            v.fields[0].name.clone()
        } else {
            let mut s = String::new();
            proof { reveal_strlit("#"); }
            push_str(&mut s, "#");
            let d = u64_to_decimal(vi as u64);
            push_str(&mut s, d.as_str());
            assert(s@ =~= seq!['#'] + spec_decimal(vi as nat));
            s
        };
        assert(vname@ == variant_label(*e, vi as int));
        let ghost o_pre = *output;
        output.count_variant(e.outer.name.as_str(), vname.as_str());
        proof { oc = *output; }
        assert(variant_counted(om, oc, e.outer.name@, variant_label(*e, vi as int)));
        assert forall|t: Seq<char>, v: Seq<char>| #[trigger] variant_count(o_pre, t, v) <= variant_count(*output, t, v) by {}
        assert(grows(*old(output), *output));
        assert(variant_count(*output, e.outer.name@, vname@) >= 1);
        let ghost o_cnt = *output;
        let vp = path.index(vi);
        let nv = v.fields.len();
        for i in 0..nv
            invariant
                nv == v.fields@.len(),
                budget > 0,
                grows(*old(output), *output),
                variant_count(*output, e.outer.name@, vname@) >= 1,
                i == 0 ==> *output == o_cnt,
                vi < e.variants@.len(),
                nv == e.variants@[vi as int].fields@.len(),
                enum_variant_at(*input.dump, *e, addr) == Ok::<Option<int>, ()>(Some(vi as int)),
                vp@ == path@.push(PathStep::Index(vi)),
                tu_steps(*input, oc, *output, v.fields@, addr, vp@, budget, i as nat),
                v.fields@ == e.variants@[vi as int].fields@,
        {
            let f = &v.fields[i];
            let ghost before = *output;
            let fty = match input.debug.try_get_type(&f.ty) {
                Some(t) => t,
                None => {
                    return Err(());
                },
            };
            let a = offset(addr, f.offset)?;
            visit_type(input, output, fty, a, vp.field(f.name.as_str()), budget - 1)?;
            proof {
                assert(grows(before, *output));
                assert(field_visited(*input, before, *output, v.fields@[i as int], addr, vp@, budget));
                lemma_tu_steps_next(*input, oc, before, *output, v.fields@, addr, vp@, budget, i as nat);
            }
        }
        assert(variant_fields_walked(*input, om, *output, *e, vi as int, addr, path@, budget));
    }
    Ok(())
}

/// Visits the value of type `ty` at `addr`, reached by `path`: claims its memory when it
/// is the root or the target of a pointer, then walks into it (containers, owning
/// pointers, tagged unions, fields), with at most `budget` levels of nesting. What a
/// successful visit does is the relation `visited`.
#[verifier::rlimit(40)]
pub fn visit_type(input: &Input, output: &mut Output, ty: &Type, addr: u64, path: Path, budget: u64) -> (r: Result<(), ReadError>)
    requires
        old(output).wf(),
    ensures
        grows(*old(output), *final(output)),
        r is Ok ==> visited(*input, *old(output), *final(output), *ty, addr, path@, budget),
        r is Ok ==> effective_type(*input.debug, *input.dump, *ty, addr) is Some,
        r is Ok && (path@.len() == 0 || path@.last() is Deref) ==> area_units(addr,
            claim_size(*input, effective_type(*input.debug, *input.dump, *ty, addr)->Some_0)).subset_of(
            final(output).used_memory.view()),
        budget == 0 || effective_type(*input.debug, *input.dump, *ty, addr) is None
            ==> r is Err && *final(output) == *old(output),
        budget > 0 && (path@.len() == 0 || path@.last() is Deref) ==> match effective_type(*input.debug, *input.dump, *ty, addr) {
            Some(t) => claim_fits(*input, t, addr) ==> area_units(addr, claim_size(*input, t)).subset_of(final(output).used_memory.view()),
            None => true,
        },
        budget > 0 ==> visit_leaf(*input, *old(output), *final(output),
            effective_type(*input.debug, *input.dump, *ty, addr), addr, path@.len() == 0 || path@.last() is Deref, r is Ok),
        budget > 0 ==> match effective_type(*input.debug, *input.dump, *ty, addr) {
            Some(Type::Struct(ct)) => (!(path@.len() == 0 || path@.last() is Deref) || claim_fits(*input, Type::Struct(ct), addr))
                ==> match known_at(*input, Type::Struct(ct), ct, addr) {
                Err(_) => r is Err,
                Ok(Some(k)) => known_result(*input, k, *final(output), r is Ok)
                    && known_target(*input, k, *final(output), budget)
                    && ((k is TaggedUnion && r is Ok) ==> tagged_union_counted(*input, Type::Struct(ct), ct.name@, addr, *old(output), *final(output))),
                Ok(None) => true,
            },
            Some(Type::Varianted(e)) => r is Ok ==> enum_counted(*input, e, addr, *final(output)),
            _ => true,
        },
        r is Ok && (path@.len() == 0 || path@.last() is Deref) ==> forall|i: int| 0 <= i < usage_keys(path@).len() ==>
            #[trigger] count_of(named_map(final(output).usage@), usage_keys(path@)[i]) >= sat_add(
                count_of(named_map(old(output).usage@), usage_keys(path@)[i]),
                claim_size(*input, effective_type(*input.debug, *input.dump, *ty, addr)->Some_0)),
        budget > 0 ==> match effective_type(*input.debug, *input.dump, *ty, addr) {
            Some(Type::Struct(ct)) => match known_at(*input, Type::Struct(ct), ct, addr) {
                Ok(Some(k)) => known_quiet(*input, k, *old(output)) ==> {
                    &&& (r is Ok <==> (!(path@.len() == 0 || path@.last() is Deref) || claim_fits(*input, Type::Struct(ct), addr)))
                    &&& r is Ok ==> own_claimed(*input, *old(output), *final(output), Type::Struct(ct), addr, path@,
                        path@.len() == 0 || path@.last() is Deref)
                },
                _ => true,
            },
            _ => true,
        },
    decreases budget, 6int,
{
    let ghost ty0 = ty;
    if budget == 0 {
        return Err(());
    }
    let ty = match input.resolve_alias_chain(ty) {
        Some(t) => t,
        None => {
            return Err(());
        },
    };

    // Handle virtual types by detecting the presence of a vtable field, then looking up its value
    let ty = match ty {
        Type::Struct(ct) => {
            if ct.fields.len() > 0 && str_starts_with(ct.fields[0].name.as_str(), "_vptr.") {
                let v_ptr = input.dump.read_ptr(offset(addr, ct.fields[0].offset)?)?;
                match input.debug.find_type_by_vtable(v_ptr) {
                    Some(t) => t,
                    None => ty,
                }
            } else {
                ty
            }
        },
        _ => ty,
    };
    assert(effective_type(*input.debug, *input.dump, *ty0, addr) == Some(*ty));
    // if the last entry in the path is a deref, or is the root - then claim the memory of this type
    let claims = path.is_root_or_deref();
    if claims {
        claim_checked(input, output, &path, addr, ty)?;
    }
    let ghost o_mid = *output;
    assert(own_claimed(*input, *old(output), o_mid, *ty, addr, path@, claims_at(path@)));
    assert(claims_at(path@) ==> claim_fits(*input, *ty, addr));
    proof {
        if claims {
            let sz = claim_size(*input, *ty);
            assert forall|i: int| 0 <= i < usage_keys(path@).len() implies
                #[trigger] count_of(named_map(o_mid.usage@), usage_keys(path@)[i]) >= sat_add(
                    count_of(named_map(old(output).usage@), usage_keys(path@)[i]), sz) by {
                lemma_add_all_member(named_map(old(output).usage@), usage_keys(path@), sz, i);
            }
        }
    }

    match ty {
        Type::Alias(_) => Err(()),
        Type::Struct(composite_type) => {
            let r = visit_struct(input, output, ty, composite_type, addr, &path, budget);
            proof {
                if claims {
                    assert forall|i: int| 0 <= i < usage_keys(path@).len() implies
                        #[trigger] count_of(named_map(output.usage@), usage_keys(path@)[i]) >= sat_add(
                            count_of(named_map(old(output).usage@), usage_keys(path@)[i]), claim_size(*input, *ty)) by {
                        assert(count_of(named_map(o_mid.usage@), usage_keys(path@)[i]) >= sat_add(
                            count_of(named_map(old(output).usage@), usage_keys(path@)[i]), claim_size(*input, *ty)));
                    }
                }
                if known_at(*input, *ty, *composite_type, addr) is Ok && known_at(*input, *ty, *composite_type, addr)->Ok_0 is Some {
                    let k = known_at(*input, *ty, *composite_type, addr)->Ok_0->Some_0;
                    if known_quiet(*input, k, *old(output)) {
                        assert(o_mid.shared_pointers@ == old(output).shared_pointers@);
                        assert(known_quiet(*input, k, o_mid));
                    }
                }
                if r is Ok {
                    lemma_visited_intro(*input, *old(output), o_mid, *output, *ty0, *ty, addr, path@, budget);
                }
            }
            r
        },
        Type::Varianted(e) => {
            let r = visit_enum(input, output, e, addr, &path, budget);
            proof {
                if claims {
                    assert forall|i: int| 0 <= i < usage_keys(path@).len() implies
                        #[trigger] count_of(named_map(output.usage@), usage_keys(path@)[i]) >= sat_add(
                            count_of(named_map(old(output).usage@), usage_keys(path@)[i]), claim_size(*input, *ty)) by {
                        assert(count_of(named_map(o_mid.usage@), usage_keys(path@)[i]) >= sat_add(
                            count_of(named_map(old(output).usage@), usage_keys(path@)[i]), claim_size(*input, *ty)));
                    }
                }
                if r is Ok {
                    lemma_visited_intro(*input, *old(output), o_mid, *output, *ty0, *ty, addr, path@, budget);
                }
            }
            r
        },
        Type::Array(..) => Err(()),
        Type::Union(_) | Type::Enum(_) | Type::Primtive(_) => {
            proof {
                lemma_visited_intro(*input, *old(output), o_mid, *output, *ty0, *ty, addr, path@, budget);
            }
            Ok(())
        },
        Type::Pointer(..) => {
            // Only the pointer itself is read: its target is not owned
            input.dump.read_ptr(addr)?;
            proof {
                lemma_visited_intro(*input, *old(output), o_mid, *output, *ty0, *ty, addr, path@, budget);
            }
            Ok(())
        },
    }
}

} // verus!
