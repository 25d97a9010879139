//! Helper types of the mrustc compiler: tagged unions, reference-counted strings and
//! thin vectors.
use vstd::prelude::*;
use vstd::slice::slice_subrange;
use crate::core_dump::{ReadError, spec_read};
use crate::debug_info::{CompositeField, CompositeType, DebugPool, Type};
use crate::core_dump::CoreDump;
use crate::debug_query::type_size;
use crate::text::{spec_starts_with, str_eq, str_starts_with};
use crate::type_handlers::{Input, addr_add, field_offset, ref_resolved, u32_at, word_at};
use crate::visit_helpers::{Path, PathStep};

verus! {

/// A mrustc `TAGGED_UNION` structure
pub struct TaggedUnion<'d> {
    /// Offset to the data, relative to the passed `addr`
    pub data_ofs: u64,
    /// Name and data type of the current variant
    pub variant: Option<(&'d str, &'d Type)>,
    /// Other data fields on the union (`TAGGED_UNION_EX` can add methods and data)
    pub other_fields: &'d [CompositeField],
    pub data_union: &'d CompositeType,
}

/// A mrustc tagged union at `addr`: a struct whose first two fields are `m_tag` and
/// `m_data`, the latter a union. The result is the offset of `m_data`, the current
/// variant (the union's field numbered by the tag, counting from one; none for tag zero
/// or a tag beyond the fields), the struct's other fields and the union.
pub open spec fn tagged_union_at(p: DebugPool, d: CoreDump, ty: Type, addr: u64)
    -> Result<Option<(u64, Option<(Seq<char>, Type)>, Seq<CompositeField>, CompositeType)>, ()>
{
    match ty {
        Type::Struct(ct) => if !(ct.fields@.len() >= 2 && ct.fields@[0].name@ == "m_tag"@ && ct.fields@[1].name@ == "m_data"@) {
            Ok(None)
        } else {
            match ref_resolved(p, ct.fields@[1].ty) {
                None => Err(()),
                Some(Type::Union(du)) => match u32_at(d, addr, ct.fields@[0].offset) {
                    None => Err(()),
                    Some(tag) => if tag == 0 || tag > du.fields@.len() {
                        Ok(Some((ct.fields@[1].offset, None, ct.fields@.skip(2), du)))
                    } else {
                        let f = du.fields@[tag - 1];
                        match p.spec_type(f.ty) {
                            Some(t) => Ok(Some((ct.fields@[1].offset, Some((f.name@, t)), ct.fields@.skip(2), du))),
                            None => Err(()),
                        }
                    },
                },
                Some(_) => Ok(None),
            }
        },
        _ => Ok(None),
    }
}

/// The parts of a tagged union read from `ty` at `addr`.
pub(crate) fn read_tagged_union<'d>(input: &Input<'d>, ty: &'d Type, addr: u64)
    -> (r: Result<Option<(u64, Option<(&'d str, &'d Type)>, &'d [CompositeField], &'d CompositeType)>, ReadError>)
    ensures
        match tagged_union_at(*input.debug, *input.dump, *ty, addr) {
            Err(_) => r is Err,
            Ok(None) => r matches Ok(None),
            Ok(Some((o, v, fs, du))) => r matches Ok(Some((o2, v2, fs2, du2))) && o2 == o && fs2@ == fs && *du2 == du
                && match v {
                    None => v2 is None,
                    Some((n, t)) => v2 matches Some((n2, t2)) && n2@ == n && *t2 == t,
                },
        },
{
    let ct = match ty {
        Type::Struct(ct) => ct,
        _ => {
            return Ok(None);
        },
    };
    if !(ct.fields.len() >= 2 && str_eq(ct.fields[0].name.as_str(), "m_tag") && str_eq(ct.fields[1].name.as_str(), "m_data")) {
        return Ok(None);
    }
    let du: &'d CompositeType = match input.resolve_alias_chain_tr(&ct.fields[1].ty) {
        None => {
            return Err(());
        },
        Some(Type::Union(du)) => du,
        Some(_) => {
            return Ok(None);
        },
    };
    let t_o = ct.fields[0].offset;
    let d_o = ct.fields[1].offset;
    let tag = input.u32_at(addr, t_o)?;
    let other = slice_subrange(ct.fields.as_slice(), 2, ct.fields.len());
    assert(other@ =~= ct.fields@.skip(2));
    let n = du.fields.len();
    if tag == 0 || tag as usize > n {
        return Ok(Some((d_o, None, other, du)));
    }
    let f = &du.fields[(tag - 1) as usize];
    match input.debug.try_get_type(&f.ty) {
        Some(t) => Ok(Some((d_o, Some((f.name.as_str(), t)), other, du))),
        None => Err(()),
    }
}

impl<'d> TaggedUnion<'d> {
    pub fn opt_read(input: &Input<'d>, ty: &'d Type, addr: u64) -> (r: Result<Option<Self>, ReadError>)
        ensures
            match tagged_union_at(*input.debug, *input.dump, *ty, addr) {
                Err(_) => r is Err,
                Ok(None) => r matches Ok(None),
                Ok(Some((o, v, fs, du))) => r matches Ok(Some(x)) && x.data_ofs == o && x.other_fields@ == fs
                    && *x.data_union == du && match v {
                        None => x.variant is None,
                        Some((n, t)) => x.variant matches Some((n2, t2)) && n2@ == n && *t2 == t,
                    },
            },
    {
        match read_tagged_union(input, ty, addr)? {
            None => Ok(None),
            Some((data_ofs, variant, other_fields, data_union)) => Ok(Some(TaggedUnion { data_ofs, variant, other_fields, data_union })),
        }
    }
}

/// The type that the first field of `ct` points to (without following aliases).
pub open spec fn first_field_target(p: DebugPool, ct: CompositeType) -> Option<Type> {
    if ct.fields@.len() == 0 {
        None
    } else {
        match p.spec_type(ct.fields@[0].ty) {
            Some(Type::Pointer(i, _)) => p.spec_type(i),
            _ => None,
        }
    }
}

fn read_first_field_target<'d>(input: &Input<'d>, ct: &CompositeType) -> (r: Option<&'d Type>)
    ensures
        match first_field_target(*input.debug, *ct) {
            Some(t) => r matches Some(x) && *x == t,
            None => r is None,
        },
{
    if ct.fields.len() == 0 {
        return None;
    }
    match input.debug.try_get_type(&ct.fields[0].ty) {
        Some(Type::Pointer(i, _)) => input.debug.try_get_type(i),
        _ => None,
    }
}

pub struct RcString {
    pub data_addr: u64,
    pub string_ptr: u64,
    pub string_len: u64,
}

/// A mrustc `RcString` at `addr`: a pointer to a block whose `data` field holds the
/// characters and whose `size` field (32 bits) their count. The result is the block's
/// address, the address of the characters and their count (all zero for a null pointer).
/// With `checked`, a block whose 8 bytes at `size` cannot be read is refused.
pub open spec fn rc_string_at(p: DebugPool, d: CoreDump, ty: Type, addr: u64, checked: bool) -> Result<Option<(u64, u64, u64)>, ()> {
    match ty {
        Type::Struct(ct) => if ct.name@ != "RcString"@ {
            Ok(None)
        } else {
            match first_field_target(p, ct) {
                None => Err(()),
                Some(inner) => match (field_offset(p, inner, seq![PathStep::Field("data"@)]),
                    field_offset(p, inner, seq![PathStep::Field("size"@)])) {
                    (Some(dofs), Some(sofs)) => match word_at(d, addr, 0) {
                        None => Err(()),
                        Some(ptr) => if ptr == 0 {
                            Ok(Some((0, 0, 0)))
                        } else if checked && !(addr_add(ptr, sofs) matches Some(x) && spec_read(d, x, 8) is Some) {
                            Err(())
                        } else {
                            match (addr_add(ptr, dofs), u32_at(d, ptr, sofs)) {
                                (Some(sp), Some(len)) => Ok(Some((ptr, sp, len as u64))),
                                _ => Err(()),
                            }
                        },
                    },
                    _ => Err(()),
                },
            }
        },
        _ => Ok(None),
    }
}

pub fn read_rc_string(input: &Input, ty: &Type, addr: u64, checked: bool) -> (r: Result<Option<(u64, u64, u64)>, ReadError>)
    ensures
        match rc_string_at(*input.debug, *input.dump, *ty, addr, checked) {
            Err(_) => r is Err,
            Ok(v) => r == Ok::<_, ReadError>(v),
        },
{
    let ct = match ty {
        Type::Struct(ct) => ct,
        _ => {
            return Ok(None);
        },
    };
    if !str_eq(ct.name.as_str(), "RcString") {
        return Ok(None);
    }
    let inner = match read_first_field_target(input, ct) {
        Some(t) => t,
        None => {
            return Err(());
        },
    };
    let pd = Path::root().field("data");
    let ps = Path::root().field("size");
    assert(pd@ =~= seq![PathStep::Field("data"@)]);
    assert(ps@ =~= seq![PathStep::Field("size"@)]);
    let (data_ofs, size_ofs) = match (input.get_field(inner, pd), input.get_field(inner, ps)) {
        (Some((a, _)), Some((b, _))) => (a, b),
        _ => {
            return Err(());
        },
    };
    let ptr = input.word_at(addr, 0)?;
    if ptr == 0 {
        return Ok(Some((0, 0, 0)));
    }
    if checked {
        if size_ofs > u64::MAX - ptr || !input.dump.is_valid(ptr + size_ofs, 8) {
            return Err(());
        }
    }
    if data_ofs > u64::MAX - ptr {
        return Err(());
    }
    let len = input.u32_at(ptr, size_ofs)?;
    Ok(Some((ptr, ptr + data_ofs, len as u64)))
}

impl RcString {
    pub fn opt_read<'d>(input: &Input<'d>, ty: &'d Type, addr: u64) -> (r: Result<Option<Self>, ReadError>)
        ensures
            match rc_string_at(*input.debug, *input.dump, *ty, addr, true) {
                Err(_) => r is Err,
                Ok(None) => r matches Ok(None),
                Ok(Some((a, p, l))) => r matches Ok(Some(x)) && x.data_addr == a && x.string_ptr == p && x.string_len == l,
            },
    {
        match read_rc_string(input, ty, addr, true)? {
            None => Ok(None),
            Some((data_addr, string_ptr, string_len)) => Ok(Some(RcString { data_addr, string_ptr, string_len })),
        }
    }
}

pub struct ThinVector<'a> {
    pub data_ptr: u64,
    pub len: u64,
    pub cap: u64,
    pub inner_ty: &'a Type,
}

/// A mrustc `ThinVector` at `addr`: a pointer to its items, preceded by a header holding
/// the length and capacity, padded to a whole number of items. The result is the item
/// pointer, the length, the capacity and the item type (all zero for a null pointer).
pub open spec fn thin_vector_at(p: DebugPool, d: CoreDump, ty: Type, addr: u64) -> Result<Option<(u64, u64, u64, Type)>, ()> {
    match ty {
        Type::Struct(ct) => if !spec_starts_with(ct.name@, "ThinVector<"@) {
            Ok(None)
        } else {
            match first_field_target(p, ct) {
                None => Err(()),
                Some(inner) => match word_at(d, addr, 0) {
                    None => Err(()),
                    Some(ptr) => if ptr == 0 {
                        Ok(Some((0, 0, 0, inner)))
                    } else {
                        match type_size(p, inner, p.types@.len()) {
                            Some(sz) => if sz == 0 {
                                Err(())
                            } else {
                                let back = ((16 + sz - 1) / (sz as int)) * sz;
                                if back > ptr {
                                    Err(())
                                } else {
                                    match (word_at(d, (ptr - back) as u64, 0), word_at(d, (ptr - back) as u64, 8)) {
                                        (Some(l), Some(c)) => Ok(Some((ptr, l, c, inner))),
                                        _ => Err(()),
                                    }
                                }
                            },
                            None => Err(()),
                        }
                    },
                },
            }
        },
        _ => Ok(None),
    }
}

impl<'d> ThinVector<'d> {
    pub fn opt_read(input: &Input<'d>, ty: &'d Type, addr: u64) -> (r: Result<Option<Self>, ReadError>)
        ensures
            match thin_vector_at(*input.debug, *input.dump, *ty, addr) {
                Err(_) => r is Err,
                Ok(None) => r matches Ok(None),
                Ok(Some((p, l, c, t))) => r matches Ok(Some(x)) && x.data_ptr == p && x.len == l && x.cap == c && *x.inner_ty == t,
            },
    {
        let ct = match ty {
            Type::Struct(ct) => ct,
            _ => {
                return Ok(None);
            },
        };
        if !str_starts_with(ct.name.as_str(), "ThinVector<") {
            return Ok(None);
        }
        let inner_ty = match read_first_field_target(input, ct) {
            Some(t) => t,
            None => {
                return Err(());
            },
        };
        let p = input.word_at(addr, 0)?;
        if p == 0 {
            return Ok(Some(ThinVector { data_ptr: 0, len: 0, cap: 0, inner_ty }));
        }
        let sz = match input.debug.size_of(inner_ty) {
            Some(sz) => sz,
            None => {
                return Err(());
            },
        };
        if sz == 0 {
            return Err(());
        }
        let sz128 = sz as u128;
        let metadata_len = (16 + (sz128 - 1)) / sz128;
        assert(metadata_len * sz128 <= 16 + sz128 - 1) by (nonlinear_arith)
            requires
                metadata_len == (16 + (sz128 - 1)) / (sz128 as int),
                sz128 > 0;
        let back = metadata_len * sz128;
        if back > p as u128 {
            return Err(());
        }
        let meta_addr = p - back as u64;
        let len = input.word_at(meta_addr, 0)?;
        let cap = input.word_at(meta_addr, 8)?;
        Ok(Some(ThinVector { data_ptr: p, len, cap, inner_ty }))
    }
}

} // verus!
