//! Containers of the Rust standard library.
use vstd::prelude::*;
use crate::core_dump::{CoreDump, ReadError};
use crate::debug_info::{DebugPool, Type};
use crate::debug_query::{first_named, type_size, type_text};
use crate::text::{spec_ends_with, spec_starts_with, str_ends_with, str_starts_with};
use crate::type_handlers::{Input, addr_add, field_offset, word_at};
use crate::visit_helpers::{Path, PathStep, field_walk};
use vstd::string::StrSliceExecFns;

verus! {

pub struct AllocVec<'d> {
    pub begin: u64,
    pub end: u64,
    pub alloc_end: u64,
    pub item_ty: &'d Type,
}

pub open spec fn marker_path() -> Seq<PathStep> {
    seq![PathStep::Field("buf"@), PathStep::Field("_marker"@)]
}

pub open spec fn vec_ptr_path() -> Seq<PathStep> {
    seq![PathStep::Field("buf"@), PathStep::Field("inner"@), PathStep::Field("ptr"@)]
}

pub open spec fn vec_cap_path() -> Seq<PathStep> {
    seq![PathStep::Field("buf"@), PathStep::Field("inner"@), PathStep::Field("cap"@)]
}

pub open spec fn vec_len_path() -> Seq<PathStep> {
    seq![PathStep::Field("len"@)]
}

/// The item type named inside a marker type's name `n`: `n` without the leading
/// `core::marker::PhantomData<` and the trailing `>`.
pub open spec fn phantom_argument(n: Seq<char>) -> Option<Seq<char>> {
    let pre = "core::marker::PhantomData<"@;
    if spec_starts_with(n, pre) && n.len() >= pre.len() + 1 && n.last() == '>' {
        Some(n.subrange(pre.len() as int, n.len() - 1))
    } else {
        None
    }
}

/// `base + count * size` when it fits in 64 bits.
pub open spec fn scaled_add(base: u64, count: u64, size: usize) -> Option<u64> {
    if base + count * size <= u64::MAX { Some((base + count * size) as u64) } else { None }
}

/// An `alloc::vec::Vec` at `addr`: its item pointer, the end of its items and the end of
/// its allocation, and its item type, which is found by the name written inside the
/// type of its `_marker` (`core::marker::PhantomData<T>`). A `Vec` whose layout or item
/// type cannot be found, or whose words cannot be read, is an error (`Err`), which stops
/// the visit of that value.
pub open spec fn alloc_vec_at(p: DebugPool, d: CoreDump, ty: Type, addr: u64) -> Result<Option<(u64, u64, u64, Type)>, ()> {
    match ty {
        Type::Struct(ct) => if !spec_starts_with(ct.name@, "alloc::vec::Vec<"@) {
            Ok(None)
        } else {
            match (field_walk(p, ty, marker_path()), field_offset(p, ty, vec_ptr_path()),
                field_offset(p, ty, vec_cap_path()), field_offset(p, ty, vec_len_path())) {
                (Some((_, mt)), Some(po), Some(co), Some(lo)) => {
                    let mname = match p.spec_type(mt) {
                        Some(t) => type_text(p, t, p.types@.len()),
                        None => seq!['?'],
                    };
                    match phantom_argument(mname) {
                        Some(n) => match first_named(p.types@, n) {
                            Some(j) => {
                                let item = p.types@[j]->Some_0;
                                match type_size(p, item, p.types@.len()) {
                                    Some(sz) => match (word_at(d, addr, po), word_at(d, addr, co), word_at(d, addr, lo)) {
                                        (Some(ptr), Some(cap), Some(len)) => match (scaled_add(ptr, len, sz), scaled_add(ptr, cap, sz)) {
                                            (Some(e), Some(a)) => Ok(Some((ptr, e, a, item))),
                                            _ => Err(()),
                                        },
                                        _ => Err(()),
                                    },
                                    None => Err(()),
                                }
                            },
                            None => Err(()),
                        },
                        None => Err(()),
                    }
                },
                _ => Err(()),
            }
        },
        _ => Ok(None),
    }
}

fn scaled_add_exec(base: u64, count: u64, size: usize) -> (r: Option<u64>)
    ensures
        r == scaled_add(base, count, size),
{
    assert((count as u128) * (size as u128) <= u128::MAX) by (nonlinear_arith)
        requires
            count <= u64::MAX,
            size <= u64::MAX;
    let prod = (count as u128) * (size as u128);
    assert(prod == count * size) by (nonlinear_arith)
        requires
            prod == (count as u128) * (size as u128);
    assert(size <= u64::MAX);
    if prod > (u64::MAX - base) as u128 {
        None
    } else {
        Some(base + prod as u64)
    }
}

impl<'d> AllocVec<'d> {
    pub fn opt_read(input: &Input<'d>, ty: &Type, addr: u64) -> (r: Result<Option<Self>, ReadError>)
        ensures
            match alloc_vec_at(*input.debug, *input.dump, *ty, addr) {
                Err(_) => r is Err,
                Ok(None) => r matches Ok(None),
                Ok(Some((b, e, a, t))) => r matches Ok(Some(x)) && x.begin == b && x.end == e && x.alloc_end == a
                    && *x.item_ty == t,
            },
    {
        match ty {
            Type::Struct(ct) => {
                if !str_starts_with(ct.name.as_str(), "alloc::vec::Vec<") {
                    return Ok(None);
                }
            },
            _ => {
                return Ok(None);
            },
        }
        let pm = Path::root().field("buf").field("_marker");
        let pp = Path::root().field("buf").field("inner").field("ptr");
        let pc = Path::root().field("buf").field("inner").field("cap");
        let pl = Path::root().field("len");
        assert(pm@ =~= marker_path() && pp@ =~= vec_ptr_path() && pc@ =~= vec_cap_path() && pl@ =~= vec_len_path());
        let (mt, po, co, lo) = match (input.get_field(ty, pm), input.get_field(ty, pp), input.get_field(ty, pc), input.get_field(ty, pl)) {
            (Some((_, mt)), Some((po, _)), Some((co, _)), Some((lo, _))) => (mt, po, co, lo),
            _ => {
                return Err(());
            },
        };
        let mname = input.debug.fmt_type_ref(&mt);
        let m = mname.as_str();
        proof { reveal_strlit("core::marker::PhantomData<"); reveal_strlit(">"); }
        let n = m.unicode_len();
        assert("core::marker::PhantomData<"@.len() == 26);
        assert(">"@ =~= seq!['>']);
        assert(m@.len() >= 1 ==> m@.skip(m@.len() - 1) =~= seq![m@.last()]);
        if !(str_starts_with(m, "core::marker::PhantomData<") && n >= 27 && str_ends_with(m, ">")) {
            return Err(());
        }
        let inner = m.substring_char(26, n - 1);
        assert(spec_starts_with(m@, "core::marker::PhantomData<"@));
        assert(m@.len() >= 27);
        assert(m@.skip(m@.len() - 1) == ">"@);
        assert(m@.skip(m@.len() - 1)[0] == '>');
        assert(m@.last() == '>');
        assert(phantom_argument(m@) == Some(inner@));
        let item: &'d Type = match input.debug.find_type_by_name(inner) {
            Some(t) => t,
            None => {
                return Err(());
            },
        };
        let sz = match input.debug.size_of(item) {
            Some(sz) => sz,
            None => {
                return Err(());
            },
        };
        let ptr = input.word_at(addr, po)?;
        let cap = input.word_at(addr, co)?;
        let len = input.word_at(addr, lo)?;
        assert(type_size(*input.debug, *item, input.debug.types@.len()) == Some(sz));
        assert(first_named(input.debug.types@, inner@) is Some);
        match (scaled_add_exec(ptr, len, sz), scaled_add_exec(ptr, cap, sz)) {
            (Some(end), Some(alloc_end)) => Ok(Some(AllocVec { begin: ptr, end, alloc_end, item_ty: item })),
            _ => Err(()),
        }
    }
}

/// A `hashbrown::map::HashMap`, known by its item type. Walking its table is not
/// implemented: the walk stops with an error at such a map.
pub struct HashbrownMap<'d> {
    pub item_ty: &'d Type,
}

pub open spec fn map_marker_path() -> Seq<PathStep> {
    seq![PathStep::Field("table"@), PathStep::Field("marker"@)]
}

/// Whether `ty` is a `hashbrown::map::HashMap`, and its item type, found by the name
/// written inside the type of its `table.marker` field (`core::marker::PhantomData<T>`);
/// `Err` when that field or type cannot be found.
pub open spec fn hashbrown_item(p: DebugPool, ty: Type) -> Result<Option<Type>, ()> {
    match ty {
        Type::Struct(ct) => if !spec_starts_with(ct.name@, "hashbrown::map::HashMap<"@) {
            Ok(None)
        } else {
            match field_walk(p, ty, map_marker_path()) {
                Some((_, mt)) => {
                    let mname = match p.spec_type(mt) {
                        Some(t) => type_text(p, t, p.types@.len()),
                        None => seq!['?'],
                    };
                    match phantom_argument(mname) {
                        Some(n) => match first_named(p.types@, n) {
                            Some(j) => Ok(Some(p.types@[j]->Some_0)),
                            None => Err(()),
                        },
                        None => Err(()),
                    }
                },
                None => Err(()),
            }
        },
        _ => Ok(None),
    }
}

impl<'d> HashbrownMap<'d> {
    pub fn opt_read(input: &Input<'d>, ty: &Type, addr: u64) -> (r: Result<Option<Self>, ReadError>)
        ensures
            match hashbrown_item(*input.debug, *ty) {
                Err(_) => r is Err,
                Ok(None) => r matches Ok(None),
                Ok(Some(t)) => r matches Ok(Some(x)) && *x.item_ty == t,
            },
    {
        match ty {
            Type::Struct(ct) => {
                if !str_starts_with(ct.name.as_str(), "hashbrown::map::HashMap<") {
                    return Ok(None);
                }
            },
            _ => {
                return Ok(None);
            },
        }
        let pm = Path::root().field("table").field("marker");
        assert(pm@ =~= map_marker_path());
        let mt = match input.get_field(ty, pm) {
            Some((_, mt)) => mt,
            None => {
                return Err(());
            },
        };
        let mname = input.debug.fmt_type_ref(&mt);
        let m = mname.as_str();
        proof { reveal_strlit("core::marker::PhantomData<"); reveal_strlit(">"); }
        let n = m.unicode_len();
        assert("core::marker::PhantomData<"@.len() == 26);
        assert(">"@ =~= seq!['>']);
        assert(m@.len() >= 1 ==> m@.skip(m@.len() - 1) =~= seq![m@.last()]);
        if !(str_starts_with(m, "core::marker::PhantomData<") && n >= 27 && str_ends_with(m, ">")) {
            return Err(());
        }
        let inner = m.substring_char(26, n - 1);
        assert(m@.skip(m@.len() - 1)[0] == '>');
        assert(phantom_argument(m@) == Some(inner@));
        match input.debug.find_type_by_name(inner) {
            Some(t) => Ok(Some(HashbrownMap { item_ty: t })),
            None => Err(()),
        }
    }
}

} // verus!
