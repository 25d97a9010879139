//! Building the debug-information model from the DIEs of a compilation unit.
//!
//! The DIEs arrive in depth-first order as plain records; a stack of open scopes
//! (namespaces, types, functions, lexical blocks, enum variant parts) tracks where
//! each DIE belongs.
use vstd::prelude::*;
use crate::debug_info::{
    CompositeField, CompositeType, DebugPool, Enum, EnumVariant, FunctionRecord, PcRange, PcRanges,
    PointerClass, PrimitiveType, Type, TypeRef, UnitEncoding, VariableLocation, VariablePosition,
    VariableRange, VariableRecord, VariantDiscr, type_key,
};
use crate::text::{push_str, spec_decimal, str_to_string, u64_to_decimal};
use crate::named::{index_of_name, insert_named, lemma_index_of_name, named_inserted, position_of_name};

verus! {

pub const DW_TAG_ARRAY_TYPE: u16 = 0x01;
pub const DW_TAG_CLASS_TYPE: u16 = 0x02;
pub const DW_TAG_ENUMERATION_TYPE: u16 = 0x04;
pub const DW_TAG_FORMAL_PARAMETER: u16 = 0x05;
pub const DW_TAG_IMPORTED_DECLARATION: u16 = 0x08;
pub const DW_TAG_LABEL: u16 = 0x0a;
pub const DW_TAG_LEXICAL_BLOCK: u16 = 0x0b;
pub const DW_TAG_MEMBER: u16 = 0x0d;
pub const DW_TAG_POINTER_TYPE: u16 = 0x0f;
pub const DW_TAG_REFERENCE_TYPE: u16 = 0x10;
pub const DW_TAG_COMPILE_UNIT: u16 = 0x11;
pub const DW_TAG_STRUCTURE_TYPE: u16 = 0x13;
pub const DW_TAG_TYPEDEF: u16 = 0x16;
pub const DW_TAG_UNION_TYPE: u16 = 0x17;
pub const DW_TAG_UNSPECIFIED_PARAMETERS: u16 = 0x18;
pub const DW_TAG_VARIANT: u16 = 0x19;
pub const DW_TAG_INHERITANCE: u16 = 0x1c;
pub const DW_TAG_INLINED_SUBROUTINE: u16 = 0x1d;
pub const DW_TAG_BASE_TYPE: u16 = 0x24;
pub const DW_TAG_CONST_TYPE: u16 = 0x26;
pub const DW_TAG_SUBPROGRAM: u16 = 0x2e;
pub const DW_TAG_TEMPLATE_TYPE_PARAMETER: u16 = 0x2f;
pub const DW_TAG_TEMPLATE_VALUE_PARAMETER: u16 = 0x30;
pub const DW_TAG_VARIANT_PART: u16 = 0x33;
pub const DW_TAG_VARIABLE: u16 = 0x34;
pub const DW_TAG_NAMESPACE: u16 = 0x39;
pub const DW_TAG_RVALUE_REFERENCE_TYPE: u16 = 0x42;
pub const DW_TAG_CALL_SITE: u16 = 0x48;
pub const DW_TAG_GNU_TEMPLATE_TEMPLATE_PARAM: u16 = 0x4106;
pub const DW_TAG_GNU_TEMPLATE_PARAMETER_PACK: u16 = 0x4107;
pub const DW_TAG_GNU_FORMAL_PARAMETER_PACK: u16 = 0x4108;

pub const DW_AT_LOCATION: u16 = 0x02;
pub const DW_AT_NAME: u16 = 0x03;
pub const DW_AT_BYTE_SIZE: u16 = 0x0b;
pub const DW_AT_BIT_SIZE: u16 = 0x0d;
pub const DW_AT_LOW_PC: u16 = 0x11;
pub const DW_AT_HIGH_PC: u16 = 0x12;
pub const DW_AT_DISCR: u16 = 0x15;
pub const DW_AT_DISCR_VALUE: u16 = 0x16;
pub const DW_AT_DATA_MEMBER_LOCATION: u16 = 0x38;
pub const DW_AT_DISCR_LIST: u16 = 0x3d;
pub const DW_AT_FRAME_BASE: u16 = 0x40;
pub const DW_AT_TYPE: u16 = 0x49;
pub const DW_AT_RANGES: u16 = 0x55;

/// The value of a DIE attribute, in the forms this library reads.
#[derive(Debug)]
pub enum AttrValue {
    Addr(u64),
    Udata(u64),
    Sdata(i64),
    Data1(u8),
    Data2(u16),
    Data4(u32),
    Data8(u64),
    UnitRef(usize),
    Exprloc(Vec<u8>),
    Block(Vec<u8>),
    RangeListsRef(usize),
    LocationListsRef(usize),
    /// Any other form
    Other,
}

/// The name of a DIE
#[derive(Debug)]
pub enum DieName {
    Absent,
    Text(String),
    /// The name attribute could not be read as a UTF-8 string
    Unreadable,
}

/// One entry of a range list
#[derive(Clone, Copy, PartialEq, Eq, Structural, Debug)]
pub enum RawRange {
    BaseAddress(u64),
    OffsetPair(u64, u64),
    StartEnd(u64, u64),
    StartLength(u64, u64),
    AddressOrOffsetPair(u64, u64),
    /// An entry kind that refers to the address table
    Unsupported,
}

/// The range list that `DW_AT_ranges` refers to
#[derive(Debug)]
pub enum RangeListAttr {
    Absent,
    /// The attribute is not a range-list reference
    NotAList,
    Entries(Vec<RawRange>),
    /// The list could not be read
    Unreadable,
}

/// The first entry of the location list that `DW_AT_location` refers to
#[derive(Debug)]
pub enum LocListAttr {
    /// The attribute is absent or not a location-list reference
    NotAList,
    /// The expression bytes of the first entry, `None` for an empty list
    First(Option<Vec<u8>>),
    /// The list could not be read
    Unreadable,
}

/// A debugging information entry, with its attributes as plain values
#[derive(Debug)]
pub struct DieRecord {
    /// Tree depth, zero for the unit entry
    pub depth: usize,
    pub offset: usize,
    pub tag: u16,
    pub name: DieName,
    /// Attributes in order of appearance
    pub attrs: Vec<(u16, AttrValue)>,
    pub ranges: RangeListAttr,
    pub location: LocListAttr,
}

/// What the DIEs of one unit are read against
#[derive(Clone, Copy, PartialEq, Eq, Structural, Debug)]
pub struct UnitContext {
    pub unit_index: usize,
    pub load_base: u64,
    pub encoding: UnitEncoding,
}

/// A DIE that the builder cannot represent
#[derive(Clone, Copy, PartialEq, Eq, Structural, Debug)]
pub struct DwarfError;

/// The enum-specific parts of a type under construction
#[derive(Debug)]
pub struct EnumData {
    pub discr_ref: Option<usize>,
    pub variants: Vec<EnumVariant>,
    pub top_fields: Vec<CompositeField>,
    pub offsets: Vec<usize>,
}

/// A struct, class or union under construction
#[derive(Debug)]
pub struct TypeData {
    pub ct: CompositeType,
    pub ty: TypeRef,
    pub is_union: bool,
    pub enum_data: Option<EnumData>,
    pub field_refs: Vec<usize>,
}

/// An open scope
#[derive(Debug)]
pub enum State {
    Root,
    Namespace(String),
    InType(TypeData),
    EnumVariants(EnumData),
    EnumVariant(EnumVariant),
    InFunction(String, FunctionRecord),
    /// Should only exist underneath a `InFunction`
    FcnScope(PcRanges),
}

// ---------------------------------------------------------------------------
// Attributes

/// The first attribute named `at`.
pub open spec fn first_attr(attrs: Seq<(u16, AttrValue)>, at: u16) -> Option<AttrValue>
    decreases attrs.len(),
{
    if attrs.len() == 0 {
        None
    } else if attrs[0].0 == at {
        Some(attrs[0].1)
    } else {
        first_attr(attrs.drop_first(), at)
    }
}

/// The attribute of `rec` named `at`.
pub open spec fn rec_attr(rec: DieRecord, at: u16) -> Option<AttrValue> {
    first_attr(rec.attrs@, at)
}

proof fn lemma_first_attr_skip(attrs: Seq<(u16, AttrValue)>, at: u16, i: int)
    requires
        0 <= i < attrs.len(),
        forall|j: int| 0 <= j < i ==> attrs[j].0 != at,
    ensures
        first_attr(attrs, at) == first_attr(attrs.skip(i), at),
    decreases i,
{
    if i > 0 {
        lemma_first_attr_skip(attrs.drop_first(), at, i - 1);
        assert(attrs.drop_first().skip(i - 1) =~= attrs.skip(i));
    } else {
        assert(attrs.skip(0) =~= attrs);
    }
}

proof fn lemma_first_attr_none(attrs: Seq<(u16, AttrValue)>, at: u16)
    requires
        forall|j: int| 0 <= j < attrs.len() ==> attrs[j].0 != at,
    ensures
        first_attr(attrs, at) is None,
    decreases attrs.len(),
{
    if attrs.len() > 0 {
        lemma_first_attr_none(attrs.drop_first(), at);
    }
}

/// Find the first attribute of `rec` named `at`.
pub fn find_attr(rec: &DieRecord, at: u16) -> (r: Option<&AttrValue>)
    ensures
        r matches Some(v) ==> rec_attr(*rec, at) == Some(*v),
        r is None <==> rec_attr(*rec, at) is None,
{
    let n = rec.attrs.len();
    for i in 0..n
        invariant
            n == rec.attrs@.len(),
            forall|j: int| 0 <= j < i ==> rec.attrs@[j].0 != at,
    {
        if rec.attrs[i].0 == at {
            proof {
                lemma_first_attr_skip(rec.attrs@, at, i as int);
            }
            return Some(&rec.attrs[i].1);
        }
    }
    proof {
        lemma_first_attr_none(rec.attrs@, at);
    }
    None
}

/// An attribute value read as an unsigned constant: the data forms zero-extended,
/// and a non-negative signed constant.
pub open spec fn spec_udata(v: AttrValue) -> Option<u64> {
    match v {
        AttrValue::Data1(d) => Some(d as u64),
        AttrValue::Data2(d) => Some(d as u64),
        AttrValue::Data4(d) => Some(d as u64),
        AttrValue::Data8(d) => Some(d),
        AttrValue::Udata(d) => Some(d),
        AttrValue::Sdata(d) => if d < 0 { None } else { Some(d as u64) },
        _ => None,
    }
}

pub fn udata_value(v: &AttrValue) -> (r: Option<u64>)
    ensures
        r == spec_udata(*v),
{
    match v {
        AttrValue::Data1(d) => Some(*d as u64),
        AttrValue::Data2(d) => Some(*d as u64),
        AttrValue::Data4(d) => Some(*d as u64),
        AttrValue::Data8(d) => Some(*d),
        AttrValue::Udata(d) => Some(*d),
        AttrValue::Sdata(d) => if *d < 0 { None } else { Some(*d as u64) },
        _ => None,
    }
}

/// An attribute read as an address (the address form, or an unsigned constant).
pub open spec fn spec_addr(v: AttrValue) -> Option<u64> {
    match v {
        AttrValue::Addr(a) => Some(a),
        AttrValue::Udata(a) => Some(a),
        _ => None,
    }
}

// ---------------------------------------------------------------------------
// Names

/// The name of a DIE: `Err` when unreadable.
pub open spec fn spec_die_name(rec: DieRecord) -> Result<Option<Seq<char>>, ()> {
    match rec.name {
        DieName::Absent => Ok(None),
        DieName::Text(s) => Ok(Some(s@)),
        DieName::Unreadable => Err(()),
    }
}

pub fn die_name(rec: &DieRecord) -> (r: Result<Option<&str>, DwarfError>)
    ensures
        r is Err <==> spec_die_name(*rec) is Err,
        r matches Ok(Some(s)) ==> spec_die_name(*rec) == Ok::<_, ()>(Some(s@)),
        r matches Ok(None) ==> spec_die_name(*rec) == Ok::<_, ()>(None::<Seq<char>>),
{
    match &rec.name {
        DieName::Absent => Ok(None),
        DieName::Text(s) => Ok(Some(s.as_str())),
        DieName::Unreadable => Err(DwarfError),
    }
}

/// The name of the innermost named scope (namespace, function or type) of `stack`.
pub open spec fn parent_name(stack: Seq<State>) -> Option<Seq<char>>
    decreases stack.len(),
{
    if stack.len() == 0 {
        None
    } else {
        match stack.last() {
            State::Namespace(n) => Some(n@),
            State::InFunction(n, _) => Some(n@),
            State::InType(td) => Some(td.ct.name@),
            _ => parent_name(stack.drop_last()),
        }
    }
}

fn parent_name_exec(stack: &Vec<State>) -> (r: Option<&String>)
    ensures
        r matches Some(s) ==> parent_name(stack@) == Some(s@),
        r is None <==> parent_name(stack@) is None,
{
    let mut i = stack.len();
    assert(stack@.take(i as int) =~= stack@);
    while i > 0
        invariant
            i <= stack@.len(),
            parent_name(stack@) == parent_name(stack@.take(i as int)),
        decreases i,
    {
        assert(stack@.take(i as int).drop_last() =~= stack@.take(i - 1));
        match &stack[i - 1] {
            State::Namespace(n) => return Some(n),
            State::InFunction(n, _) => return Some(n),
            State::InType(td) => return Some(&td.ct.name),
            _ => {},
        }
        i = i - 1;
    }
    None
}

/// The name given to an entry opened inside `stack`: the enclosing scope's name, `::`,
/// then the entry's own name, or `class@offset` for an unnamed entry.
pub open spec fn scoped_name(stack: Seq<State>, class: Seq<char>, name: Option<Seq<char>>, offset: usize) -> Seq<char> {
    let prefix = match parent_name(stack) {
        Some(p) => if p.len() == 0 { p } else { p + seq![':', ':'] },
        None => Seq::<char>::empty(),
    };
    match name {
        Some(n) => prefix + n,
        None => prefix + class + seq!['@'] + spec_decimal(offset as nat),
    }
}

/// A named entry declared directly inside a namespace with a non-empty name is named by
/// that namespace, `::` and its own name, whatever encloses the namespace.
pub proof fn law_scoped_name_in_namespace(outer: Seq<State>, ns: String, class: Seq<char>, n: Seq<char>, offset: usize)
    requires
        ns@.len() > 0,
    ensures
        scoped_name(outer.push(State::Namespace(ns)), class, Some(n), offset) == ns@ + seq![':', ':'] + n,
{
    assert(outer.push(State::Namespace(ns)).last() == State::Namespace(ns));
}

/// An unnamed entry declared directly inside a namespace with a non-empty name is named by
/// that namespace, `::`, its class, `@` and its offset in decimal.
pub proof fn law_unnamed_in_namespace(outer: Seq<State>, ns: String, class: Seq<char>, offset: usize)
    requires
        ns@.len() > 0,
    ensures
        scoped_name(outer.push(State::Namespace(ns)), class, None, offset)
            == ns@ + seq![':', ':'] + class + seq!['@'] + spec_decimal(offset as nat),
{
    assert(outer.push(State::Namespace(ns)).last() == State::Namespace(ns));
}

/// A named entry declared directly inside a named type is named by that type's name, `::`
/// and its own name.
pub proof fn law_scoped_name_in_type(outer: Seq<State>, td: TypeData, class: Seq<char>, n: Seq<char>, offset: usize)
    requires
        td.ct.name@.len() > 0,
    ensures
        scoped_name(outer.push(State::InType(td)), class, Some(n), offset) == td.ct.name@ + seq![':', ':'] + n,
{
    assert(outer.push(State::InType(td)).last() == State::InType(td));
}

/// A named entry's scoped name is its own name preceded by the name of the innermost
/// enclosing named scope and `::` where that name is not empty: it starts with the scope's
/// name and `::`, ends with the entry's name, and holds nothing else; with no enclosing
/// named scope it is the entry's name alone.
pub proof fn law_scoped_name_parts(stack: Seq<State>, p: Seq<char>, class: Seq<char>, n: Seq<char>, offset: usize)
    ensures
        parent_name(stack) == Some(p) && p.len() > 0 ==> {
            let r = scoped_name(stack, class, Some(n), offset);
            &&& r.len() == p.len() + 2 + n.len()
            &&& r.take(p.len() as int) == p
            &&& r[p.len() as int] == ':' && r[p.len() + 1int] == ':'
            &&& r.skip(p.len() + 2int) == n
        },
        parent_name(stack) is None || parent_name(stack) == Some(Seq::<char>::empty())
            ==> scoped_name(stack, class, Some(n), offset) == n,
{
    match parent_name(stack) {
        Some(q) => {
            if q.len() > 0 {
                let r = scoped_name(stack, class, Some(n), offset);
                assert(r =~= q + seq![':', ':'] + n);
                assert(r.take(q.len() as int) =~= q);
                assert(r.skip(q.len() + 2int) =~= n);
            } else {
                assert(q + n =~= n);
            }
        },
        None => {
            assert(Seq::<char>::empty() + n =~= n);
        },
    }
}

pub fn get_scoped_name(stack: &Vec<State>, class: &str, name: Option<&str>, offset: usize) -> (r: String)
    ensures
        r@ == scoped_name(stack@, class@, match name { Some(n) => Some(n@), None => None }, offset),
{
    let mut full = String::new();
    match parent_name_exec(stack) {
        Some(p) => {
            push_str(&mut full, p.as_str());
            if !p.as_str().is_empty() {
                push_str(&mut full, "::");
                proof {
                    reveal_strlit("::");
                }
            }
        },
        None => {},
    }
    match name {
        None => {
            push_str(&mut full, class);
            push_str(&mut full, "@");
            let d = u64_to_decimal(offset as u64);
            push_str(&mut full, d.as_str());
            proof {
                reveal_strlit("@");
            }
        },
        Some(n) => push_str(&mut full, n),
    }
    full
}

// ---------------------------------------------------------------------------
// Program-counter ranges

/// One entry of a range list applied at base address `base`: the range it adds (if any)
/// and the base address after it; `None` when the entry is unsupported or overflows.
pub open spec fn range_step(e: RawRange, load_base: u64, base: u64) -> Option<(Option<PcRange>, u64)> {
    match e {
        RawRange::BaseAddress(a) =>
            if load_base + a <= u64::MAX { Some((None, (load_base + a) as u64)) } else { None },
        RawRange::OffsetPair(b, e) | RawRange::AddressOrOffsetPair(b, e) =>
            if base + b <= u64::MAX && base + e <= u64::MAX {
                Some((Some(PcRange { start: (base + b) as u64, end: (base + e) as u64 }), base))
            } else {
                None
            },
        RawRange::StartEnd(b, e) =>
            if load_base + b <= u64::MAX && load_base + e <= u64::MAX {
                Some((Some(PcRange { start: (load_base + b) as u64, end: (load_base + e) as u64 }), base))
            } else {
                None
            },
        RawRange::StartLength(b, l) =>
            if load_base + b + l <= u64::MAX {
                Some((Some(PcRange { start: (load_base + b) as u64, end: (load_base + b + l) as u64 }), base))
            } else {
                None
            },
        RawRange::Unsupported => None,
    }
}

/// A base-address entry of a range list sets the base to the module's load base plus its
/// address, whatever the base was before: a following offset pair `(b, e)` gives the range
/// from `load_base + a + b` to `load_base + a + e`, and the rest of the list is read from
/// that base too.
pub proof fn law_base_address_relocated(es: Seq<RawRange>, load_base: u64, base: u64, a: u64, b: u64, e: u64)
    requires
        load_base + a + b <= u64::MAX,
        load_base + a + e <= u64::MAX,
    ensures
        fold_ranges(seq![RawRange::BaseAddress(a), RawRange::OffsetPair(b, e)] + es, load_base, base)
            == prepend_ranges(seq![PcRange { start: (load_base + a + b) as u64, end: (load_base + a + e) as u64 }],
                fold_ranges(es, load_base, (load_base + a) as u64)),
{
    let l = seq![RawRange::BaseAddress(a), RawRange::OffsetPair(b, e)] + es;
    assert(l[0] == RawRange::BaseAddress(a));
    assert(l.drop_first()[0] == RawRange::OffsetPair(b, e));
    assert(l.drop_first().drop_first() =~= es);
    let nb = (load_base + a) as u64;
    let l1 = l.drop_first();
    assert(range_step(l[0], load_base, base) == Some((None::<PcRange>, nb)));
    assert(fold_ranges(l, load_base, base) == fold_ranges(l1, load_base, nb));
    let pr = PcRange { start: (nb + b) as u64, end: (nb + e) as u64 };
    assert(range_step(l1[0], load_base, nb) == Some((Some(pr), nb)));
    assert(fold_ranges(l1, load_base, nb) == match fold_ranges(es, load_base, nb) {
        None => None,
        Some(rest) => Some(seq![pr] + rest),
    });
    match fold_ranges(es, load_base, nb) {
        Some(rest) => {
            assert(seq![PcRange { start: (nb + b) as u64, end: (nb + e) as u64 }] + rest
                =~= seq![PcRange { start: (load_base + a + b) as u64, end: (load_base + a + e) as u64 }] + rest);
        },
        None => {},
    }
}

/// The other entries of a range list, each at the front of a list read from base `base`:
/// an offset pair `(b, e)` gives the range from `base + b` to `base + e`; a start-end pair
/// gives the range from `load_base + b` to `load_base + e` and a start-length pair the range
/// of `l` bytes from `load_base + b`, whatever the base; none of them moves the base.
pub proof fn law_range_entries(es: Seq<RawRange>, load_base: u64, base: u64, b: u64, e: u64)
    requires
        base + b <= u64::MAX,
        base + e <= u64::MAX,
        load_base + b + e <= u64::MAX,
    ensures
        fold_ranges(seq![RawRange::OffsetPair(b, e)] + es, load_base, base)
            == prepend_ranges(seq![PcRange { start: (base + b) as u64, end: (base + e) as u64 }], fold_ranges(es, load_base, base)),
        fold_ranges(seq![RawRange::StartEnd(b, e)] + es, load_base, base)
            == prepend_ranges(seq![PcRange { start: (load_base + b) as u64, end: (load_base + e) as u64 }], fold_ranges(es, load_base, base)),
        fold_ranges(seq![RawRange::StartLength(b, e)] + es, load_base, base)
            == prepend_ranges(seq![PcRange { start: (load_base + b) as u64, end: (load_base + b + e) as u64 }], fold_ranges(es, load_base, base)),
{
    let l1 = seq![RawRange::OffsetPair(b, e)] + es;
    let l2 = seq![RawRange::StartEnd(b, e)] + es;
    let l3 = seq![RawRange::StartLength(b, e)] + es;
    assert(l1[0] == RawRange::OffsetPair(b, e) && l1.drop_first() =~= es);
    assert(l2[0] == RawRange::StartEnd(b, e) && l2.drop_first() =~= es);
    assert(l3[0] == RawRange::StartLength(b, e) && l3.drop_first() =~= es);
}

/// The ranges of a whole range list, read from base address `base`; `None` on failure.
pub open spec fn fold_ranges(es: Seq<RawRange>, load_base: u64, base: u64) -> Option<Seq<PcRange>>
    decreases es.len(),
{
    if es.len() == 0 {
        Some(Seq::empty())
    } else {
        match range_step(es[0], load_base, base) {
            None => None,
            Some((r, nb)) => match fold_ranges(es.drop_first(), load_base, nb) {
                None => None,
                Some(rest) => Some(
                    match r {
                        Some(x) => seq![x] + rest,
                        None => rest,
                    },
                ),
            },
        }
    }
}

pub open spec fn prepend_ranges(acc: Seq<PcRange>, rest: Option<Seq<PcRange>>) -> Option<Seq<PcRange>> {
    match rest {
        Some(r) => Some(acc + r),
        None => None,
    }
}

/// The program-counter ranges of a DIE (relocated by `load_base`), from its low/high pc
/// or its range list; `None` when they cannot be read.
pub open spec fn spec_pc_ranges(rec: DieRecord, load_base: u64) -> Option<Seq<PcRange>> {
    let lo = rec_attr(rec, DW_AT_LOW_PC);
    let hi = rec_attr(rec, DW_AT_HIGH_PC);
    if (lo is Some && spec_addr(lo.unwrap()) is None) || (hi is Some && spec_addr(hi.unwrap()) is None) {
        None
    } else {
        match lo {
            Some(l) => {
                let lv = spec_addr(l).unwrap();
                match hi {
                    None => if load_base + lv <= u64::MAX {
                        Some(seq![PcRange { start: (load_base + lv) as u64, end: (load_base + lv) as u64 }])
                    } else {
                        None
                    },
                    Some(h) => {
                        let hv = spec_addr(h).unwrap();
                        if lv <= hv {
                            if load_base + hv <= u64::MAX {
                                Some(seq![PcRange { start: (load_base + lv) as u64, end: (load_base + hv) as u64 }])
                            } else {
                                None
                            }
                        } else {
                            if load_base + lv + hv <= u64::MAX {
                                Some(seq![PcRange { start: (load_base + lv) as u64, end: (load_base + lv + hv) as u64 }])
                            } else {
                                None
                            }
                        }
                    },
                }
            },
            None => match rec.ranges {
                RangeListAttr::Absent => Some(Seq::empty()),
                RangeListAttr::Entries(es) => fold_ranges(es@, load_base, load_base),
                _ => None,
            },
        }
    }
}

fn addr_value(v: &AttrValue) -> (r: Option<u64>)
    ensures
        r == spec_addr(*v),
{
    match v {
        AttrValue::Addr(a) => Some(*a),
        AttrValue::Udata(a) => Some(*a),
        _ => None,
    }
}

fn ranges_from_list(es: &Vec<RawRange>, load_base: u64) -> (r: Result<Vec<PcRange>, DwarfError>)
    ensures
        match fold_ranges(es@, load_base, load_base) {
            Some(s) => r matches Ok(v) && v@ == s,
            None => r is Err,
        },
{
    let mut acc: Vec<PcRange> = Vec::new();
    let mut base = load_base;
    let n = es.len();
    assert(es@.skip(0) =~= es@);
    for i in 0..n
        invariant
            n == es@.len(),
            fold_ranges(es@, load_base, load_base) == prepend_ranges(acc@, fold_ranges(es@.skip(i as int), load_base, base)),
    {
        let ghost rest = es@.skip(i as int);
        assert(rest[0] == es@[i as int]);
        assert(rest.drop_first() =~= es@.skip(i + 1));
        match es[i] {
            RawRange::BaseAddress(a) => {
                if a > u64::MAX - load_base {
                    return Err(DwarfError);
                }
                base = load_base + a;
            },
            RawRange::OffsetPair(b, e) | RawRange::AddressOrOffsetPair(b, e) => {
                if b > u64::MAX - base || e > u64::MAX - base {
                    return Err(DwarfError);
                }
                let ghost old_acc = acc@;
                acc.push(PcRange { start: base + b, end: base + e });
                proof {
                    let tail = fold_ranges(es@.skip(i + 1), load_base, base);
                    if tail is Some {
                        assert(old_acc + (seq![PcRange { start: (base + b) as u64, end: (base + e) as u64 }] + tail.unwrap())
                            =~= acc@ + tail.unwrap());
                    }
                }
            },
            RawRange::StartEnd(b, e) => {
                if b > u64::MAX - load_base || e > u64::MAX - load_base {
                    return Err(DwarfError);
                }
                let ghost old_acc = acc@;
                acc.push(PcRange { start: load_base + b, end: load_base + e });
                proof {
                    let tail = fold_ranges(es@.skip(i + 1), load_base, base);
                    if tail is Some {
                        assert(old_acc + (seq![PcRange { start: (load_base + b) as u64, end: (load_base + e) as u64 }] + tail.unwrap())
                            =~= acc@ + tail.unwrap());
                    }
                }
            },
            RawRange::StartLength(b, l) => {
                if b > u64::MAX - load_base || l > u64::MAX - (load_base + b) {
                    return Err(DwarfError);
                }
                let ghost old_acc = acc@;
                acc.push(PcRange { start: load_base + b, end: load_base + b + l });
                proof {
                    let tail = fold_ranges(es@.skip(i + 1), load_base, base);
                    if tail is Some {
                        assert(old_acc + (seq![PcRange { start: (load_base + b) as u64, end: (load_base + b + l) as u64 }] + tail.unwrap())
                            =~= acc@ + tail.unwrap());
                    }
                }
            },
            RawRange::Unsupported => {
                return Err(DwarfError);
            },
        }
    }
    assert(es@.skip(n as int) =~= Seq::<RawRange>::empty());
    assert(acc@ + Seq::<PcRange>::empty() =~= acc@);
    Ok(acc)
}

/// The program-counter ranges of `rec`.
pub fn get_pc_range(rec: &DieRecord, load_base: u64) -> (r: Result<PcRanges, DwarfError>)
    ensures
        match spec_pc_ranges(*rec, load_base) {
            Some(s) => r matches Ok(p) && p.ranges@ == s,
            None => r is Err,
        },
{
    let lo = find_attr(rec, DW_AT_LOW_PC);
    let hi = find_attr(rec, DW_AT_HIGH_PC);
    let lo_v = match lo {
        Some(v) => match addr_value(v) {
            Some(a) => Some(a),
            None => return Err(DwarfError),
        },
        None => None,
    };
    let hi_v = match hi {
        Some(v) => match addr_value(v) {
            Some(a) => Some(a),
            None => return Err(DwarfError),
        },
        None => None,
    };
    match lo_v {
        Some(lv) => {
            if lv > u64::MAX - load_base {
                return Err(DwarfError);
            }
            match hi_v {
                None => {
                    let mut v = Vec::new();
                    v.push(PcRange { start: load_base + lv, end: load_base + lv });
                    Ok(PcRanges { ranges: v })
                },
                Some(hv) => {
                    if lv <= hv {
                        if hv > u64::MAX - load_base {
                            return Err(DwarfError);
                        }
                        let mut v = Vec::new();
                        v.push(PcRange { start: load_base + lv, end: load_base + hv });
                        Ok(PcRanges { ranges: v })
                    } else {
                        if hv > u64::MAX - (load_base + lv) {
                            return Err(DwarfError);
                        }
                        let mut v = Vec::new();
                        v.push(PcRange { start: load_base + lv, end: load_base + lv + hv });
                        Ok(PcRanges { ranges: v })
                    }
                },
            }
        },
        None => match &rec.ranges {
            RangeListAttr::Absent => Ok(PcRanges { ranges: Vec::new() }),
            RangeListAttr::Entries(es) => {
                let v = ranges_from_list(es, load_base)?;
                Ok(PcRanges { ranges: v })
            },
            _ => Err(DwarfError),
        },
    }
}

// ---------------------------------------------------------------------------
// The tables of the pool that building changes

/// The type table, the DIE-to-slot map and the function table of a pool.
pub type Tables = (Seq<Option<Type>>, Map<u128, usize>, Seq<(String, FunctionRecord)>);

pub open spec fn tables(p: DebugPool) -> Tables {
    (p.types@, p.type_keys@, p.functions@)
}

/// The slot for the DIE at `offset` of unit `unit_index`: its existing slot, or a new
/// unfilled slot at the end of the type table.
pub open spec fn alloc_slot(t: Tables, unit_index: usize, offset: usize) -> (Tables, TypeRef) {
    let k = type_key(unit_index, offset);
    if t.1.contains_key(k) {
        (t, TypeRef(t.1[k]))
    } else {
        ((t.0.push(None), t.1.insert(k, t.0.len() as usize), t.2), TypeRef(t.0.len() as usize))
    }
}

/// The slot of `r` filled with `ty`.
pub open spec fn set_slot(t: Tables, r: TypeRef, ty: Type) -> Tables {
    (t.0.update(r.0 as int, Some(ty)), t.1, t.2)
}

/// `t1` is `t0` with the slot of `r` filled with some type (described separately).
pub open spec fn slot_filled(t0: Tables, r: TypeRef, t1: Tables) -> bool {
    &&& r.0 < t0.0.len()
    &&& t1.0[r.0 as int] is Some
    &&& t1 == (t0.0.update(r.0 as int, t1.0[r.0 as int]), t0.1, t0.2)
}

/// The `DW_AT_type` attribute: `Err` when present but not a reference into the unit.
pub open spec fn spec_type_attr(rec: DieRecord) -> Result<Option<usize>, ()> {
    match rec_attr(rec, DW_AT_TYPE) {
        None => Ok(None),
        Some(AttrValue::UnitRef(r)) => Ok(Some(r)),
        Some(_) => Err(()),
    }
}

/// The type slot that an optional unit reference names, allocated on first use.
pub open spec fn alloc_opt(t: Tables, unit_index: usize, r: Option<usize>) -> (Tables, Option<TypeRef>) {
    match r {
        None => (t, None),
        Some(o) => (alloc_slot(t, unit_index, o).0, Some(alloc_slot(t, unit_index, o).1)),
    }
}

/// The type reference that the `DW_AT_type` attribute of `rec` names.
pub fn get_typeref_from_attr(pool: &mut DebugPool, unit_index: usize, rec: &DieRecord) -> (r: Result<Option<TypeRef>, DwarfError>)
    requires
        old(pool).inv(),
    ensures
        final(pool).inv(),
        final(pool).next_unit_index == old(pool).next_unit_index,
        final(pool).symbols == old(pool).symbols,
        final(pool).frame_rows == old(pool).frame_rows,
        match spec_type_attr(*rec) {
            Err(_) => r is Err && *final(pool) == *old(pool),
            Ok(o) => r == Ok::<_, DwarfError>(alloc_opt(tables(*old(pool)), unit_index, o).1)
                && tables(*final(pool)) == alloc_opt(tables(*old(pool)), unit_index, o).0,
        },
{
    match find_attr(rec, DW_AT_TYPE) {
        None => Ok(None),
        Some(AttrValue::UnitRef(o)) => {
            let t = pool.dwarf_type_ref(unit_index, *o);
            Ok(Some(t))
        },
        Some(_) => Err(DwarfError),
    }
}

/// The position of a variable from its `DW_AT_location` attribute: `None` when the
/// attribute cannot be read.
pub open spec fn position_ok(rec: DieRecord, enc: UnitEncoding, pos: VariablePosition) -> bool {
    match rec_attr(rec, DW_AT_LOCATION) {
        None => pos is OptimisedOut,
        Some(AttrValue::Addr(a)) => pos == VariablePosition::Fixed(a),
        Some(AttrValue::Exprloc(e)) => pos matches VariablePosition::Expr(b, en) && b@ == e@ && en == enc,
        Some(AttrValue::LocationListsRef(_)) => match rec.location {
            LocListAttr::First(Some(e)) => pos matches VariablePosition::Expr(b, en) && b@ == e@ && en == enc,
            LocListAttr::First(None) => pos is OptimisedOut,
            _ => false,
        },
        Some(_) => false,
    }
}

pub open spec fn position_readable(rec: DieRecord) -> bool {
    match rec_attr(rec, DW_AT_LOCATION) {
        None => true,
        Some(AttrValue::Addr(_)) => true,
        Some(AttrValue::Exprloc(_)) => true,
        Some(AttrValue::LocationListsRef(_)) => rec.location is First,
        Some(_) => false,
    }
}

fn copy_bytes(b: &Vec<u8>) -> (r: Vec<u8>)
    ensures
        r@ == b@,
{
    let mut v: Vec<u8> = Vec::new();
    let n = b.len();
    for i in 0..n
        invariant
            n == b@.len(),
            v@ == b@.take(i as int),
    {
        v.push(b[i]);
        assert(v@ =~= b@.take(i + 1));
    }
    assert(v@ =~= b@);
    v
}

pub fn get_position(rec: &DieRecord, enc: UnitEncoding) -> (r: Result<VariablePosition, DwarfError>)
    ensures
        r is Err <==> !position_readable(*rec),
        r matches Ok(p) ==> position_ok(*rec, enc, p),
{
    match find_attr(rec, DW_AT_LOCATION) {
        None => Ok(VariablePosition::OptimisedOut),
        Some(AttrValue::Addr(a)) => Ok(VariablePosition::Fixed(*a)),
        Some(AttrValue::Exprloc(e)) => Ok(VariablePosition::Expr(copy_bytes(e), enc)),
        Some(AttrValue::LocationListsRef(_)) => match &rec.location {
            LocListAttr::First(Some(e)) => Ok(VariablePosition::Expr(copy_bytes(e), enc)),
            LocListAttr::First(None) => Ok(VariablePosition::OptimisedOut),
            _ => Err(DwarfError),
        },
        Some(_) => Err(DwarfError),
    }
}

// ---------------------------------------------------------------------------
// Closing scopes

/// The index of the first occurrence of `x` in `s`.
pub open spec fn first_index(s: Seq<usize>, x: usize) -> Option<int>
    decreases s.len(),
{
    if s.len() == 0 {
        None
    } else if s[0] == x {
        Some(0)
    } else {
        match first_index(s.drop_first(), x) {
            Some(i) => Some(i + 1),
            None => None,
        }
    }
}

proof fn lemma_first_index_found(s: Seq<usize>, x: usize, i: int)
    requires
        0 <= i < s.len(),
        s[i] == x,
        forall|j: int| 0 <= j < i ==> s[j] != x,
    ensures
        first_index(s, x) == Some(i),
    decreases s.len(),
{
    if i > 0 {
        lemma_first_index_found(s.drop_first(), x, i - 1);
    }
}

proof fn lemma_first_index_absent(s: Seq<usize>, x: usize)
    requires
        forall|j: int| 0 <= j < s.len() ==> s[j] != x,
    ensures
        first_index(s, x) is None,
    decreases s.len(),
{
    if s.len() > 0 {
        lemma_first_index_absent(s.drop_first(), x);
    }
}

proof fn lemma_first_index_range(s: Seq<usize>, x: usize)
    ensures
        first_index(s, x) matches Some(i) ==> 0 <= i < s.len(),
    decreases s.len(),
{
    if s.len() > 0 {
        lemma_first_index_range(s.drop_first(), x);
    }
}

fn find_index(s: &Vec<usize>, x: usize) -> (r: Option<usize>)
    ensures
        r matches Some(i) ==> first_index(s@, x) == Some(i as int) && i < s@.len(),
        r is None <==> first_index(s@, x) is None,
{
    proof {
        lemma_first_index_range(s@, x);
    }
    let n = s.len();
    for i in 0..n
        invariant
            n == s@.len(),
            forall|j: int| 0 <= j < i ==> s@[j] != x,
    {
        if s[i] == x {
            proof {
                lemma_first_index_found(s@, x, i as int);
            }
            return Some(i);
        }
    }
    proof {
        lemma_first_index_absent(s@, x);
    }
    None
}

/// The offset of an enum's discriminant: that of the member that `discr_ref` names, looked
/// up first among the type's own members, then among those of its variant part.
pub open spec fn discr_offset(td: TypeData, ed: EnumData) -> Result<Option<u64>, ()> {
    match ed.discr_ref {
        None => Ok(None),
        Some(a) => match first_index(td.field_refs@, a) {
            Some(i) => if i < td.ct.fields@.len() { Ok(Some(td.ct.fields@[i].offset)) } else { Err(()) },
            None => match first_index(ed.offsets@, a) {
                Some(j) => if j < ed.top_fields@.len() { Ok(Some(ed.top_fields@[j].offset)) } else { Err(()) },
                None => Err(()),
            },
        },
    }
}

/// The type that a finished type scope describes.
pub open spec fn finished_type(td: TypeData) -> Option<Type> {
    match td.enum_data {
        Some(ed) => match discr_offset(td, ed) {
            Ok(d) => Some(Type::Varianted(Enum { outer: td.ct, discr_ofs: d, variants: ed.variants })),
            Err(_) => None,
        },
        None => if td.is_union { Some(Type::Union(td.ct)) } else { Some(Type::Struct(td.ct)) },
    }
}

/// Closing the innermost scope of `s0` (which is not empty) turns tables `t0` into `t1`
/// and the stack into `s1`; `ok` is false when the scope cannot be closed.
pub open spec fn close_rel(t0: Tables, s0: Seq<State>, t1: Tables, s1: Seq<State>, ok: bool) -> bool {
    let rest = s0.drop_last();
    match s0.last() {
        State::InFunction(n, fr) => ok && s1 == rest && t1.0 == t0.0 && t1.1 == t0.1 && named_inserted(t0.2, t1.2, n@, fr),
        State::InType(td) => match finished_type(td) {
            Some(ty) => if td.ty.0 < t0.0.len() {
                ok && s1 == rest && t1 == set_slot(t0, td.ty, ty)
            } else {
                !ok
            },
            None => !ok,
        },
        State::EnumVariants(enm) => if rest.len() > 0 && rest.last() is InType {
            let td = rest.last()->InType_0;
            &&& ok
            &&& t1 == t0
            &&& s1 == rest.update(rest.len() - 1, State::InType(TypeData {
                ct: td.ct, ty: td.ty, is_union: td.is_union, enum_data: Some(enm), field_refs: td.field_refs }))
        } else {
            !ok
        },
        State::EnumVariant(ev) => if rest.len() > 0 && rest.last() is EnumVariants {
            let ed = rest.last()->EnumVariants_0;
            &&& ok
            &&& t1 == t0
            &&& s1.len() == rest.len()
            &&& s1.drop_last() == rest.drop_last()
            &&& s1.last() matches State::EnumVariants(ed2)
            &&& ed2.variants@ == ed.variants@.push(ev)
            &&& ed2.discr_ref == ed.discr_ref
            &&& ed2.top_fields == ed.top_fields
            &&& ed2.offsets == ed.offsets
        } else {
            !ok
        },
        _ => ok && t1 == t0 && s1 == rest,
    }
}

fn finish_type(td: TypeData) -> (r: Result<(TypeRef, Type), DwarfError>)
    ensures
        match finished_type(td) {
            Some(ty) => r == Ok::<_, DwarfError>((td.ty, ty)),
            None => r is Err,
        },
{
    let ghost td0 = td;
    match td.enum_data {
        Some(ed) => {
            let discr_ofs = match ed.discr_ref {
                None => None,
                Some(a) => match find_index(&td.field_refs, a) {
                    Some(i) => {
                        if i < td.ct.fields.len() {
                            Some(td.ct.fields[i].offset)
                        } else {
                            return Err(DwarfError);
                        }
                    },
                    None => match find_index(&ed.offsets, a) {
                        Some(j) => {
                            if j < ed.top_fields.len() {
                                Some(ed.top_fields[j].offset)
                            } else {
                                return Err(DwarfError);
                            }
                        },
                        None => return Err(DwarfError),
                    },
                },
            };
            assert(discr_offset(td0, ed) == Ok::<_, ()>(discr_ofs));
            Ok((td.ty, Type::Varianted(Enum { outer: td.ct, discr_ofs, variants: ed.variants })))
        },
        None => if td.is_union {
            Ok((td.ty, Type::Union(td.ct)))
        } else {
            Ok((td.ty, Type::Struct(td.ct)))
        },
    }
}

/// Closes the innermost scope: a function is recorded, a type entered in its slot, an enum
/// variant part or variant attached to the scope that holds it.
pub fn close_top(pool: &mut DebugPool, stack: &mut Vec<State>) -> (r: Result<(), DwarfError>)
    requires
        old(pool).inv(),
        old(stack)@.len() > 0,
    ensures
        final(pool).inv(),
        final(pool).next_unit_index == old(pool).next_unit_index,
        final(pool).symbols == old(pool).symbols,
        final(pool).frame_rows == old(pool).frame_rows,
        close_rel(tables(*old(pool)), old(stack)@, tables(*final(pool)), final(stack)@, r is Ok),
{
    let ghost s0 = stack@;
    let ghost t0 = tables(*pool);
    let top = stack.pop().unwrap();
    assert(stack@ == s0.drop_last());
    match top {
        State::InFunction(n, fr) => {
            insert_named(&mut pool.functions, n, fr);
            Ok(())
        },
        State::InType(td) => {
            let (r, ty) = finish_type(td)?;
            if r.0 >= pool.types.len() {
                return Err(DwarfError);
            }
            pool.set_type(r, ty);
            Ok(())
        },
        State::EnumVariants(enm) => {
            if stack.len() == 0 {
                return Err(DwarfError);
            }
            let ghost rest = stack@;
            match stack.pop().unwrap() {
                State::InType(td) => {
                    let td2 = TypeData { ct: td.ct, ty: td.ty, is_union: td.is_union, enum_data: Some(enm), field_refs: td.field_refs };
                    stack.push(State::InType(td2));
                    assert(stack@ =~= rest.update(rest.len() - 1, State::InType(td2)));
                    Ok(())
                },
                _ => Err(DwarfError),
            }
        },
        State::EnumVariant(ev) => {
            if stack.len() == 0 {
                return Err(DwarfError);
            }
            let ghost rest = stack@;
            match stack.pop().unwrap() {
                State::EnumVariants(ed) => {
                    let mut variants = ed.variants;
                    variants.push(ev);
                    let ed2 = EnumData { discr_ref: ed.discr_ref, variants, top_fields: ed.top_fields, offsets: ed.offsets };
                    stack.push(State::EnumVariants(ed2));
                    assert(stack@.drop_last() =~= rest.drop_last());
                    Ok(())
                },
                _ => Err(DwarfError),
            }
        },
        _ => Ok(()),
    }
}

/// Closing the scopes of `s0` deeper than `depth`, innermost first, turns `t0`/`s0` into
/// `t1`/`s1`; `ok` is false when one of them cannot be closed.
pub open spec fn closes(t0: Tables, s0: Seq<State>, depth: usize, t1: Tables, s1: Seq<State>, ok: bool) -> bool
    decreases s0.len(),
{
    if s0.len() <= depth {
        ok && t1 == t0 && s1 == s0
    } else {
        exists|tm: Tables, sm: Seq<State>, okm: bool|
            #[trigger] close_rel(t0, s0, tm, sm, okm) && if okm {
                sm.len() < s0.len() && closes(tm, sm, depth, t1, s1, ok)
            } else {
                !ok
            }
    }
}

/// Closes every scope deeper than `depth`.
pub fn close_scopes(pool: &mut DebugPool, stack: &mut Vec<State>, depth: usize) -> (r: Result<(), DwarfError>)
    requires
        old(pool).inv(),
    ensures
        final(pool).inv(),
        final(pool).next_unit_index == old(pool).next_unit_index,
        final(pool).symbols == old(pool).symbols,
        final(pool).frame_rows == old(pool).frame_rows,
        closes(tables(*old(pool)), old(stack)@, depth, tables(*final(pool)), final(stack)@, r is Ok),
{
    let ghost t0 = tables(*pool);
    let ghost s0 = stack@;
    let mut result: Result<(), DwarfError> = Ok(());
    while result.is_ok() && stack.len() > depth
        invariant
            pool.inv(),
            pool.next_unit_index == old(pool).next_unit_index,
            pool.symbols == old(pool).symbols,
            pool.frame_rows == old(pool).frame_rows,
            result is Ok ==> forall|t1: Tables, s1: Seq<State>, ok: bool|
                #[trigger] closes(tables(*pool), stack@, depth, t1, s1, ok) ==> closes(t0, s0, depth, t1, s1, ok),
            result is Err ==> closes(t0, s0, depth, tables(*pool), stack@, false),
        decreases (if result is Ok { 1int } else { 0int }), stack@.len(),
    {
        let ghost tp = tables(*pool);
        let ghost sp = stack@;
        assert(forall|t1: Tables, s1: Seq<State>, ok: bool|
            #[trigger] closes(tp, sp, depth, t1, s1, ok) ==> closes(t0, s0, depth, t1, s1, ok));
        let res = close_top(pool, stack);
        match res {
            Ok(()) => {
                proof {
                    assert(stack@.len() < sp.len());
                    assert forall|t1: Tables, s1: Seq<State>, ok: bool|
                        #[trigger] closes(tables(*pool), stack@, depth, t1, s1, ok) implies closes(t0, s0, depth, t1, s1, ok) by {
                        assert(close_rel(tp, sp, tables(*pool), stack@, true));
                        assert(closes(tp, sp, depth, t1, s1, ok));
                    }
                }
            },
            Err(e) => {
                proof {
                    assert(close_rel(tp, sp, tables(*pool), stack@, false));
                    assert(closes(tp, sp, depth, tables(*pool), stack@, false));
                }
                result = Err(e);
            },
        }
    }
    if result.is_ok() {
        assert(closes(tables(*pool), stack@, depth, tables(*pool), stack@, true));
    }
    result
}

// ---------------------------------------------------------------------------
// Entries that declare types, namespaces and functions

/// `s1` is `s0` with one more (innermost) scope.
pub open spec fn pushed(s0: Seq<State>, s1: Seq<State>) -> bool {
    s1.len() == s0.len() + 1 && s1.drop_last() == s0
}

/// The name of `rec` as an option, when readable.
pub open spec fn name_opt(rec: DieRecord) -> Option<Seq<char>> {
    spec_die_name(rec)->Ok_0
}

pub open spec fn namespace_rel(s0: Seq<State>, rec: DieRecord, s1: Seq<State>, ok: bool) -> bool {
    if spec_die_name(rec) is Err {
        !ok
    } else {
        &&& ok
        &&& pushed(s0, s1)
        &&& s1.last() matches State::Namespace(x)
        &&& x@ == scoped_name(s0, "ns"@, name_opt(rec), rec.offset)
    }
}

pub fn open_namespace(stack: &mut Vec<State>, rec: &DieRecord) -> (r: Result<(), DwarfError>)
    ensures
        namespace_rel(old(stack)@, *rec, final(stack)@, r is Ok),
{
    let name = die_name(rec)?;
    let full = get_scoped_name(stack, "ns", name, rec.offset);
    let ghost s0 = stack@;
    stack.push(State::Namespace(full));
    assert(stack@.drop_last() =~= s0);
    Ok(())
}

/// The frame base of a function, when readable.
pub open spec fn frame_base_readable(rec: DieRecord) -> bool {
    match rec_attr(rec, DW_AT_FRAME_BASE) {
        None => true,
        Some(AttrValue::Exprloc(_)) => true,
        Some(_) => false,
    }
}

pub open spec fn frame_base_ok(rec: DieRecord, enc: UnitEncoding, fb: VariablePosition) -> bool {
    match rec_attr(rec, DW_AT_FRAME_BASE) {
        Some(AttrValue::Exprloc(e)) => fb matches VariablePosition::Expr(b, en) && b@ == e@ && en == enc,
        _ => fb is OptimisedOut,
    }
}

pub open spec fn subprogram_rel(s0: Seq<State>, rec: DieRecord, ctx: UnitContext, s1: Seq<State>, ok: bool) -> bool {
    if spec_die_name(rec) is Err || !frame_base_readable(rec) || spec_pc_ranges(rec, ctx.load_base) is None {
        !ok
    } else {
        &&& ok
        &&& pushed(s0, s1)
        &&& s1.last() matches State::InFunction(n, fr)
        &&& n@ == scoped_name(s0, "fn"@, name_opt(rec), rec.offset)
        &&& fr.pc_range.ranges@ == spec_pc_ranges(rec, ctx.load_base).unwrap()
        &&& frame_base_ok(rec, ctx.encoding, fr.frame_base)
        &&& fr.variables@.len() == 0
    }
}

pub fn open_subprogram(stack: &mut Vec<State>, rec: &DieRecord, ctx: UnitContext) -> (r: Result<(), DwarfError>)
    ensures
        subprogram_rel(old(stack)@, *rec, ctx, final(stack)@, r is Ok),
{
    let name = die_name(rec)?;
    let full = get_scoped_name(stack, "fn", name, rec.offset);
    let frame_base = match find_attr(rec, DW_AT_FRAME_BASE) {
        Some(AttrValue::Exprloc(e)) => VariablePosition::Expr(copy_bytes(e), ctx.encoding),
        Some(_) => return Err(DwarfError),
        None => VariablePosition::OptimisedOut,
    };
    let pc_range = get_pc_range(rec, ctx.load_base)?;
    let ghost s0 = stack@;
    stack.push(State::InFunction(full, FunctionRecord { pc_range, frame_base, variables: Vec::new() }));
    assert(stack@.drop_last() =~= s0);
    Ok(())
}

/// The size in bits of a base type: its byte size times eight, else its bit size;
/// `None` when neither can be read.
pub open spec fn base_type_bits(rec: DieRecord) -> Option<u64> {
    let byte = rec_attr(rec, DW_AT_BYTE_SIZE);
    let bit = rec_attr(rec, DW_AT_BIT_SIZE);
    if (byte is Some && spec_udata(byte.unwrap()) is None) || (bit is Some && spec_udata(bit.unwrap()) is None) {
        None
    } else if byte is Some {
        let b = spec_udata(byte.unwrap()).unwrap();
        if b * 8 <= u64::MAX { Some((b * 8) as u64) } else { None }
    } else if bit is Some {
        spec_udata(bit.unwrap())
    } else {
        None
    }
}

pub open spec fn base_type_rel(t0: Tables, s0: Seq<State>, rec: DieRecord, ctx: UnitContext, t1: Tables, s1: Seq<State>, ok: bool) -> bool {
    let (ta, r) = alloc_slot(t0, ctx.unit_index, rec.offset);
    if base_type_bits(rec) is None || spec_die_name(rec) is Err {
        !ok
    } else {
        &&& ok
        &&& s1 == s0
        &&& slot_filled(ta, r, t1)
        &&& t1.0[r.0 as int] matches Some(Type::Primtive(p))
        &&& p.name@ == scoped_name(s0, "prim"@, name_opt(rec), rec.offset)
        &&& p.bits == base_type_bits(rec).unwrap() as u32
    }
}

fn udata_attr(rec: &DieRecord, at: u16) -> (r: Result<Option<u64>, DwarfError>)
    ensures
        match rec_attr(*rec, at) {
            None => r == Ok::<_, DwarfError>(None::<u64>),
            Some(v) => match spec_udata(v) {
                Some(x) => r == Ok::<_, DwarfError>(Some(x)),
                None => r is Err,
            },
        },
{
    match find_attr(rec, at) {
        None => Ok(None),
        Some(v) => match udata_value(v) {
            Some(x) => Ok(Some(x)),
            None => Err(DwarfError),
        },
    }
}

pub fn open_base_type(pool: &mut DebugPool, stack: &Vec<State>, rec: &DieRecord, ctx: UnitContext) -> (r: Result<(), DwarfError>)
    requires
        old(pool).inv(),
    ensures
        final(pool).inv(),
        final(pool).next_unit_index == old(pool).next_unit_index,
        final(pool).symbols == old(pool).symbols,
        final(pool).frame_rows == old(pool).frame_rows,
        base_type_rel(tables(*old(pool)), stack@, *rec, ctx, tables(*final(pool)), stack@, r is Ok),
{
    let ty_ref = pool.dwarf_type_ref(ctx.unit_index, rec.offset);
    let byte = udata_attr(rec, DW_AT_BYTE_SIZE)?;
    let bit = udata_attr(rec, DW_AT_BIT_SIZE)?;
    let bits = match byte {
        Some(b) => {
            if b > u64::MAX / 8 {
                return Err(DwarfError);
            }
            b * 8
        },
        None => match bit {
            Some(b) => b,
            None => return Err(DwarfError),
        },
    };
    let name = die_name(rec)?;
    let full = get_scoped_name(stack, "prim", name, rec.offset);
    pool.set_type(ty_ref, Type::Primtive(PrimitiveType { bits: bits as u32, name: full }));
    Ok(())
}

/// `td2` is `td` with the member type `r` entered under the name `name`.
pub open spec fn sub_type_added(td: TypeData, td2: TypeData, name: Seq<char>, r: TypeRef) -> bool {
    &&& td2.ct.name == td.ct.name
    &&& td2.ct.size == td.ct.size
    &&& td2.ct.fields == td.ct.fields
    &&& td2.ct.parents == td.ct.parents
    &&& named_inserted(td.ct.sub_types@, td2.ct.sub_types@, name, r)
    &&& td2.ty == td.ty
    &&& td2.is_union == td.is_union
    &&& td2.enum_data == td.enum_data
    &&& td2.field_refs == td.field_refs
}

pub open spec fn typedef_rel(t0: Tables, s0: Seq<State>, rec: DieRecord, ctx: UnitContext, t1: Tables, s1: Seq<State>, ok: bool) -> bool {
    let (ta, r) = alloc_slot(t0, ctx.unit_index, rec.offset);
    if spec_type_attr(rec) is Err || spec_die_name(rec) is Err || s0.len() == 0 {
        !ok
    } else {
        let (tb, target) = alloc_opt(ta, ctx.unit_index, spec_type_attr(rec)->Ok_0);
        &&& ok
        &&& t1 == match target {
            Some(tt) => set_slot(tb, r, Type::Alias(tt)),
            None => tb,
        }
        &&& if s0.last() is InType && name_opt(rec) is Some {
            &&& s1.len() == s0.len()
            &&& s1.drop_last() == s0.drop_last()
            &&& s1.last() matches State::InType(td2)
            &&& sub_type_added(s0.last()->InType_0, td2, name_opt(rec).unwrap(), r)
        } else {
            s1 == s0
        }
    }
}

pub fn open_typedef(pool: &mut DebugPool, stack: &mut Vec<State>, rec: &DieRecord, ctx: UnitContext) -> (r: Result<(), DwarfError>)
    requires
        old(pool).inv(),
    ensures
        final(pool).inv(),
        final(pool).next_unit_index == old(pool).next_unit_index,
        final(pool).symbols == old(pool).symbols,
        final(pool).frame_rows == old(pool).frame_rows,
        typedef_rel(tables(*old(pool)), old(stack)@, *rec, ctx, tables(*final(pool)), final(stack)@, r is Ok),
{
    let ty_ref = pool.dwarf_type_ref(ctx.unit_index, rec.offset);
    let target = get_typeref_from_attr(pool, ctx.unit_index, rec)?;
    let name = die_name(rec)?;
    match target {
        Some(tt) => pool.set_type(ty_ref, Type::Alias(tt)),
        None => {},
    }
    if stack.len() == 0 {
        return Err(DwarfError);
    }
    let ghost s0 = stack@;
    match name {
        Some(n) => {
            let top = stack.pop().unwrap();
            match top {
                State::InType(td) => {
                    let ghost td0 = td;
                    let mut ct = td.ct;
                    insert_named(&mut ct.sub_types, str_to_string(n), ty_ref);
                    let td2 = TypeData { ct, ty: td.ty, is_union: td.is_union, enum_data: td.enum_data, field_refs: td.field_refs };
                    assert(sub_type_added(td0, td2, n@, ty_ref));
                    stack.push(State::InType(td2));
                    assert(stack@.drop_last() =~= s0.drop_last());
                },
                other => {
                    stack.push(other);
                    assert(stack@ =~= s0);
                },
            }
        },
        None => {},
    }
    Ok(())
}

pub open spec fn array_first(t0: Tables, rec: DieRecord, ctx: UnitContext) -> Option<Tables> {
    let (ta, r) = alloc_slot(t0, ctx.unit_index, rec.offset);
    match spec_type_attr(rec) {
        Ok(Some(o)) => {
            let (tb, tt) = alloc_slot(ta, ctx.unit_index, o);
            Some(set_slot(tb, r, Type::Array(tt, 0)))
        },
        _ => None,
    }
}

pub fn open_array_type(pool: &mut DebugPool, rec: &DieRecord, ctx: UnitContext) -> (r: Result<(), DwarfError>)
    requires
        old(pool).inv(),
    ensures
        final(pool).inv(),
        final(pool).next_unit_index == old(pool).next_unit_index,
        final(pool).symbols == old(pool).symbols,
        final(pool).frame_rows == old(pool).frame_rows,
        match array_first(tables(*old(pool)), *rec, ctx) {
            Some(t) => r is Ok && tables(*final(pool)) == t,
            None => r is Err,
        },
{
    let ty_ref = pool.dwarf_type_ref(ctx.unit_index, rec.offset);
    let target = get_typeref_from_attr(pool, ctx.unit_index, rec)?;
    match target {
        Some(tt) => {
            pool.set_type(ty_ref, Type::Array(tt, 0));
            Ok(())
        },
        None => Err(DwarfError),
    }
}

/// The byte size of a struct (zero when absent); `None` when not a constant.
pub open spec fn struct_size(rec: DieRecord) -> Option<u64> {
    match rec_attr(rec, DW_AT_BYTE_SIZE) {
        None => Some(0),
        Some(v) => spec_udata(v),
    }
}

/// The byte size of a union, which must be given.
pub open spec fn union_size(rec: DieRecord) -> Option<u64> {
    match rec_attr(rec, DW_AT_BYTE_SIZE) {
        None => None,
        Some(v) => spec_udata(v),
    }
}

/// `td` is a fresh, empty type scope.
pub open spec fn fresh_type(td: TypeData, name: Seq<char>, size: u64, r: TypeRef, is_union: bool) -> bool {
    &&& td.ct.name@ == name
    &&& td.ct.size == size as usize
    &&& td.ct.fields@.len() == 0
    &&& td.ct.parents@.len() == 0
    &&& td.ct.sub_types@.len() == 0
    &&& td.ty == r
    &&& td.is_union == is_union
    &&& td.enum_data is None
    &&& td.field_refs@.len() == 0
}

pub open spec fn composite_rel(t0: Tables, s0: Seq<State>, rec: DieRecord, ctx: UnitContext, is_union: bool, t1: Tables, s1: Seq<State>, ok: bool) -> bool {
    let (ta, r) = alloc_slot(t0, ctx.unit_index, rec.offset);
    let size = if is_union { union_size(rec) } else { struct_size(rec) };
    if size is None || spec_die_name(rec) is Err {
        !ok
    } else {
        &&& ok
        &&& t1 == ta
        &&& pushed(s0, s1)
        &&& s1.last() matches State::InType(td)
        &&& fresh_type(td, scoped_name(s0, if is_union { "union"@ } else { "struct"@ }, name_opt(rec), rec.offset), size.unwrap(), r, is_union)
    }
}

pub fn open_composite(pool: &mut DebugPool, stack: &mut Vec<State>, rec: &DieRecord, ctx: UnitContext, is_union: bool) -> (r: Result<(), DwarfError>)
    requires
        old(pool).inv(),
    ensures
        final(pool).inv(),
        final(pool).next_unit_index == old(pool).next_unit_index,
        final(pool).symbols == old(pool).symbols,
        final(pool).frame_rows == old(pool).frame_rows,
        composite_rel(tables(*old(pool)), old(stack)@, *rec, ctx, is_union, tables(*final(pool)), final(stack)@, r is Ok),
{
    let ty_ref = pool.dwarf_type_ref(ctx.unit_index, rec.offset);
    let size = if is_union {
        match udata_attr(rec, DW_AT_BYTE_SIZE)? {
            Some(x) => x,
            None => return Err(DwarfError),
        }
    } else {
        match udata_attr(rec, DW_AT_BYTE_SIZE)? {
            Some(x) => x,
            None => 0,
        }
    };
    let name = die_name(rec)?;
    let full = if is_union {
        get_scoped_name(stack, "union", name, rec.offset)
    } else {
        get_scoped_name(stack, "struct", name, rec.offset)
    };
    let ghost s0 = stack@;
    stack.push(State::InType(TypeData {
        ct: CompositeType::new(full, size as usize),
        ty: ty_ref,
        is_union,
        enum_data: None,
        field_refs: Vec::new(),
    }));
    assert(stack@.drop_last() =~= s0);
    Ok(())
}

pub open spec fn enumeration_rel(t0: Tables, s0: Seq<State>, rec: DieRecord, ctx: UnitContext, t1: Tables, s1: Seq<State>, ok: bool) -> bool {
    let (ta, r) = alloc_slot(t0, ctx.unit_index, rec.offset);
    if spec_die_name(rec) is Err {
        !ok
    } else {
        &&& ok
        &&& s1 == s0
        &&& slot_filled(ta, r, t1)
        &&& t1.0[r.0 as int] matches Some(Type::Enum(n))
        &&& n@ == scoped_name(s0, "enum"@, name_opt(rec), rec.offset)
    }
}

pub fn open_enumeration(pool: &mut DebugPool, stack: &Vec<State>, rec: &DieRecord, ctx: UnitContext) -> (r: Result<(), DwarfError>)
    requires
        old(pool).inv(),
    ensures
        final(pool).inv(),
        final(pool).next_unit_index == old(pool).next_unit_index,
        final(pool).symbols == old(pool).symbols,
        final(pool).frame_rows == old(pool).frame_rows,
        enumeration_rel(tables(*old(pool)), stack@, *rec, ctx, tables(*final(pool)), stack@, r is Ok),
{
    let ty_ref = pool.dwarf_type_ref(ctx.unit_index, rec.offset);
    let name = die_name(rec)?;
    let full = get_scoped_name(stack, "enum", name, rec.offset);
    pool.set_type(ty_ref, Type::Enum(full));
    Ok(())
}

/// Whether an indirection entry (`const`, pointer, reference) reads its name before its target.
pub open spec fn reads_name_first(tag: u16) -> bool {
    tag != DW_TAG_POINTER_TYPE
}

/// The type that an indirection entry with target `tt` stands for.
pub open spec fn indirection(tag: u16, tt: TypeRef) -> Type {
    if tag == DW_TAG_POINTER_TYPE {
        Type::Pointer(tt, PointerClass::Bare)
    } else if tag == DW_TAG_REFERENCE_TYPE {
        Type::Pointer(tt, PointerClass::Reference)
    } else if tag == DW_TAG_RVALUE_REFERENCE_TYPE {
        Type::Pointer(tt, PointerClass::RValueReference)
    } else {
        Type::Alias(tt)
    }
}

/// A `const`, pointer, reference or rvalue-reference entry: its slot holds an alias or a
/// pointer to its target, when it has one.  A pointer reads its name only when it has no target.
pub open spec fn indirection_rel(t0: Tables, s0: Seq<State>, rec: DieRecord, ctx: UnitContext, t1: Tables, s1: Seq<State>, ok: bool) -> bool {
    let (ta, r) = alloc_slot(t0, ctx.unit_index, rec.offset);
    if spec_type_attr(rec) is Err || (reads_name_first(rec.tag) && spec_die_name(rec) is Err) {
        !ok
    } else {
        let (tb, target) = alloc_opt(ta, ctx.unit_index, spec_type_attr(rec)->Ok_0);
        match target {
            Some(tt) => ok && s1 == s0 && t1 == set_slot(tb, r, indirection(rec.tag, tt)),
            None => if spec_die_name(rec) is Err { !ok } else { ok && s1 == s0 && t1 == tb },
        }
    }
}

pub fn open_indirection(pool: &mut DebugPool, rec: &DieRecord, ctx: UnitContext) -> (r: Result<(), DwarfError>)
    requires
        old(pool).inv(),
    ensures
        final(pool).inv(),
        final(pool).next_unit_index == old(pool).next_unit_index,
        final(pool).symbols == old(pool).symbols,
        final(pool).frame_rows == old(pool).frame_rows,
        indirection_rel(tables(*old(pool)), Seq::empty(), *rec, ctx, tables(*final(pool)), Seq::empty(), r is Ok),
{
    let ty_ref = pool.dwarf_type_ref(ctx.unit_index, rec.offset);
    if rec.tag != DW_TAG_POINTER_TYPE {
        let _ = die_name(rec)?;
    }
    let target = get_typeref_from_attr(pool, ctx.unit_index, rec)?;
    match target {
        Some(tt) => {
            let ty = if rec.tag == DW_TAG_POINTER_TYPE {
                Type::Pointer(tt, PointerClass::Bare)
            } else if rec.tag == DW_TAG_REFERENCE_TYPE {
                Type::Pointer(tt, PointerClass::Reference)
            } else if rec.tag == DW_TAG_RVALUE_REFERENCE_TYPE {
                Type::Pointer(tt, PointerClass::RValueReference)
            } else {
                Type::Alias(tt)
            };
            pool.set_type(ty_ref, ty);
            Ok(())
        },
        None => {
            let _ = die_name(rec)?;
            Ok(())
        },
    }
}

// ---------------------------------------------------------------------------
// Entries inside functions

/// The index of the outermost function scope of `s`.
pub open spec fn first_function(s: Seq<State>) -> Option<int>
    decreases s.len(),
{
    if s.len() == 0 {
        None
    } else if s[0] is InFunction {
        Some(0)
    } else {
        match first_function(s.drop_first()) {
            Some(i) => Some(i + 1),
            None => None,
        }
    }
}

proof fn lemma_first_function(s: Seq<State>, i: int)
    requires
        0 <= i < s.len(),
        s[i] is InFunction,
        forall|j: int| 0 <= j < i ==> !(s[j] is InFunction),
    ensures
        first_function(s) == Some(i),
    decreases s.len(),
{
    if i > 0 {
        lemma_first_function(s.drop_first(), i - 1);
    }
}

proof fn lemma_first_function_none(s: Seq<State>)
    requires
        forall|j: int| 0 <= j < s.len() ==> !(s[j] is InFunction),
    ensures
        first_function(s) is None,
    decreases s.len(),
{
    if s.len() > 0 {
        lemma_first_function_none(s.drop_first());
    }
}

/// A range entry of a variable: the scope's ranges and the position read from `rec`.
pub open spec fn range_ok(vr: VariableRange, pcs: Seq<PcRange>, rec: DieRecord, enc: UnitEncoding) -> bool {
    vr.pc_range.ranges@ == pcs && position_ok(rec, enc, vr.position)
}

/// `v1` is the variable table `v0` with a range of variable `name` (of type `ty` when new) recorded.
pub open spec fn var_recorded(
    v0: Seq<(String, VariableRecord)>,
    v1: Seq<(String, VariableRecord)>,
    name: Seq<char>,
    ty: TypeRef,
    pcs: Seq<PcRange>,
    rec: DieRecord,
    enc: UnitEncoding,
) -> bool {
    match index_of_name(v0, name) {
        Some(i) => {
            &&& v1.len() == v0.len()
            &&& forall|k: int| 0 <= k < v0.len() && k != i ==> v1[k] == v0[k]
            &&& v1[i].0 == v0[i].0
            &&& v1[i].1.ty == v0[i].1.ty
            &&& v1[i].1.ranges@.len() == v0[i].1.ranges@.len() + 1
            &&& v1[i].1.ranges@.drop_last() == v0[i].1.ranges@
            &&& range_ok(v1[i].1.ranges@.last(), pcs, rec, enc)
        },
        None => {
            &&& v1.len() == v0.len() + 1
            &&& v1.drop_last() == v0
            &&& v1.last().0@ == name
            &&& v1.last().1.ty == ty
            &&& v1.last().1.ranges@.len() == 1
            &&& range_ok(v1.last().1.ranges@[0], pcs, rec, enc)
        },
    }
}

/// A variable entry inside a function scope whose ranges are `pcs`: when named and the scope
/// has ranges, a range is recorded against the outermost enclosing function.
pub open spec fn variable_rel(t0: Tables, s0: Seq<State>, pcs: Seq<PcRange>, rec: DieRecord, ctx: UnitContext, t1: Tables, s1: Seq<State>, ok: bool) -> bool {
    if spec_die_name(rec) is Err || !position_readable(rec) || spec_type_attr(rec) is Err {
        !ok
    } else {
        let (ta, tyref) = alloc_opt(t0, ctx.unit_index, spec_type_attr(rec)->Ok_0);
        match name_opt(rec) {
            None => ok && t1 == ta && s1 == s0,
            Some(name) => if pcs.len() == 0 {
                ok && t1 == ta && s1 == s0
            } else {
                match (first_function(s0), tyref) {
                    (Some(j), Some(ty)) => {
                        &&& ok
                        &&& t1 == ta
                        &&& s1.len() == s0.len()
                        &&& forall|k: int| 0 <= k < s0.len() && k != j ==> s1[k] == s0[k]
                        &&& s1[j] matches State::InFunction(n2, fr2)
                        &&& s0[j] matches State::InFunction(n, fr)
                        &&& n2 == n
                        &&& fr2.pc_range == fr.pc_range
                        &&& fr2.frame_base == fr.frame_base
                        &&& var_recorded(fr.variables@, fr2.variables@, name, ty, pcs, rec, ctx.encoding)
                    },
                    _ => !ok,
                }
            },
        }
    }
}

fn find_function(stack: &Vec<State>) -> (r: Option<usize>)
    ensures
        r matches Some(j) ==> first_function(stack@) == Some(j as int) && j < stack@.len() && stack@[j as int] is InFunction,
        r is None <==> first_function(stack@) is None,
{
    let n = stack.len();
    for i in 0..n
        invariant
            n == stack@.len(),
            forall|j: int| 0 <= j < i ==> !(stack@[j] is InFunction),
    {
        if let State::InFunction(_, _) = &stack[i] {
            proof {
                lemma_first_function(stack@, i as int);
            }
            return Some(i);
        }
    }
    proof {
        lemma_first_function_none(stack@);
    }
    None
}

fn record_variable(vars: &mut Vec<(String, VariableRecord)>, name: &str, ty: TypeRef, vr: VariableRange)
    ensures
        match index_of_name(old(vars)@, name@) {
            Some(i) => {
                &&& final(vars)@.len() == old(vars)@.len()
                &&& forall|k: int| 0 <= k < old(vars)@.len() && k != i ==> final(vars)@[k] == old(vars)@[k]
                &&& final(vars)@[i].0 == old(vars)@[i].0
                &&& final(vars)@[i].1.ty == old(vars)@[i].1.ty
                &&& final(vars)@[i].1.ranges@ == old(vars)@[i].1.ranges@.push(vr)
            },
            None => {
                &&& final(vars)@.len() == old(vars)@.len() + 1
                &&& final(vars)@.drop_last() == old(vars)@
                &&& final(vars)@.last().0@ == name@
                &&& final(vars)@.last().1.ty == ty
                &&& final(vars)@.last().1.ranges@ == seq![vr]
            },
        },
{
    proof {
        lemma_index_of_name(vars@, name@);
    }
    match position_of_name(vars, name) {
        Some(i) => {
            let ghost v0 = vars@;
            let (k, mut vrec) = vars.remove(i);
            vrec.ranges.push(vr);
            vars.insert(i, (k, vrec));
            assert forall|j: int| 0 <= j < v0.len() && j != i implies vars@[j] == v0[j] by {
                if j < i {
                } else {
                }
            }
        },
        None => {
            let ghost v0 = vars@;
            let mut ranges = Vec::new();
            ranges.push(vr);
            assert(ranges@ =~= seq![vr]);
            vars.push((str_to_string(name), VariableRecord { ty, ranges }));
            assert(vars@.drop_last() =~= v0);
        },
    }
}

pub fn scope_variable(pool: &mut DebugPool, stack: &mut Vec<State>, pcs: &PcRanges, rec: &DieRecord, ctx: UnitContext) -> (r: Result<(), DwarfError>)
    requires
        old(pool).inv(),
    ensures
        final(pool).inv(),
        final(pool).next_unit_index == old(pool).next_unit_index,
        final(pool).symbols == old(pool).symbols,
        final(pool).frame_rows == old(pool).frame_rows,
        variable_rel(tables(*old(pool)), old(stack)@, pcs.ranges@, *rec, ctx, tables(*final(pool)), final(stack)@, r is Ok),
{
    let name = die_name(rec)?;
    let pos = get_position(rec, ctx.encoding)?;
    let ty = get_typeref_from_attr(pool, ctx.unit_index, rec)?;
    match name {
        None => Ok(()),
        Some(n) => {
            if pcs.is_empty() {
                return Ok(());
            }
            let j = match find_function(stack) {
                Some(j) => j,
                None => return Err(DwarfError),
            };
            let ty = match ty {
                Some(t) => t,
                None => return Err(DwarfError),
            };
            let ghost s0 = stack@;
            let vr = VariableRange { pc_range: pcs.duplicate(), position: pos };
            let st = stack.remove(j);
            match st {
                State::InFunction(fname, fr) => {
                    let ghost fr0 = fr;
                    let mut vars = fr.variables;
                    record_variable(&mut vars, n, ty, vr);
                    proof {
                        lemma_index_of_name(fr0.variables@, n@);
                        match index_of_name(fr0.variables@, n@) {
                            Some(i) => {
                                assert(vars@[i].1.ranges@.drop_last() =~= fr0.variables@[i].1.ranges@);
                            },
                            None => {},
                        }
                        assert(var_recorded(fr0.variables@, vars@, n@, ty, pcs.ranges@, *rec, ctx.encoding));
                    }
                    let fr2 = FunctionRecord { pc_range: fr.pc_range, frame_base: fr.frame_base, variables: vars };
                    stack.insert(j, State::InFunction(fname, fr2));
                    assert forall|k: int| 0 <= k < s0.len() && k != j implies stack@[k] == s0[k] by {
                        if k < j {
                        } else {
                        }
                    }
                    Ok(())
                },
                _ => Err(DwarfError),
            }
        },
    }
}

pub open spec fn lexical_block_rel(s0: Seq<State>, rec: DieRecord, ctx: UnitContext, s1: Seq<State>, ok: bool) -> bool {
    match spec_pc_ranges(rec, ctx.load_base) {
        None => !ok,
        Some(p) => {
            &&& ok
            &&& pushed(s0, s1)
            &&& s1.last() matches State::FcnScope(q)
            &&& q.ranges@ == p
        },
    }
}

pub fn open_lexical_block(stack: &mut Vec<State>, rec: &DieRecord, ctx: UnitContext) -> (r: Result<(), DwarfError>)
    ensures
        lexical_block_rel(old(stack)@, *rec, ctx, final(stack)@, r is Ok),
{
    let pc_range = get_pc_range(rec, ctx.load_base)?;
    let ghost s0 = stack@;
    stack.push(State::FcnScope(pc_range));
    assert(stack@.drop_last() =~= s0);
    Ok(())
}

// ---------------------------------------------------------------------------
// Entries inside types and enum variant parts

/// `s1` is `s0` with its innermost scope replaced.
pub open spec fn top_replaced(s0: Seq<State>, s1: Seq<State>) -> bool {
    s0.len() > 0 && s1.len() == s0.len() && s1.drop_last() == s0.drop_last()
}

/// The name given to a member: its own, or `_#` and its DIE offset when unnamed.
pub open spec fn field_name(rec: DieRecord) -> Seq<char> {
    match name_opt(rec) {
        Some(n) => n,
        None => seq!['_', '#'] + spec_decimal(rec.offset as nat),
    }
}

pub open spec fn field_ok(f: CompositeField, rec: DieRecord, ty: TypeRef, offset: u64) -> bool {
    f.name@ == field_name(rec) && f.ty == ty && f.offset == offset
}

/// `fs1` is `fs0` with one more field, the member described by `rec`.
pub open spec fn field_pushed(fs0: Seq<CompositeField>, fs1: Seq<CompositeField>, rec: DieRecord, ty: TypeRef, offset: u64) -> bool {
    fs1.len() == fs0.len() + 1 && fs1.drop_last() == fs0 && field_ok(fs1.last(), rec, ty, offset)
}

/// A member with a required offset: the tables after allocating its type, its type and
/// its offset; `None` when it cannot be read.
pub open spec fn required_member(t0: Tables, rec: DieRecord, ctx: UnitContext) -> Option<(Tables, TypeRef, u64)> {
    if spec_die_name(rec) is Err {
        None
    } else {
        match rec_attr(rec, DW_AT_DATA_MEMBER_LOCATION) {
            Some(v) => match spec_udata(v) {
                Some(off) => match spec_type_attr(rec) {
                    Ok(o) => match alloc_opt(t0, ctx.unit_index, o) {
                        (ta, Some(ty)) => Some((ta, ty, off)),
                        _ => None,
                    },
                    Err(_) => None,
                },
                None => None,
            },
            None => None,
        }
    }
}

/// A member of a struct or union: `None` when it cannot be read, `Some(None)` when it is
/// skipped (a struct member without an offset), else as for a required member.
pub open spec fn type_member(t0: Tables, rec: DieRecord, ctx: UnitContext, is_union: bool) -> Option<Option<(Tables, TypeRef, u64)>> {
    if spec_die_name(rec) is Err {
        None
    } else {
        let off = match rec_attr(rec, DW_AT_DATA_MEMBER_LOCATION) {
            None => if is_union { Some(Some(0u64)) } else { Some(None) },
            Some(v) => match spec_udata(v) {
                Some(x) => Some(Some(x)),
                None => None,
            },
        };
        match off {
            None => None,
            Some(None) => Some(None),
            Some(Some(o)) => match spec_type_attr(rec) {
                Ok(a) => match alloc_opt(t0, ctx.unit_index, a) {
                    (ta, Some(ty)) => Some(Some((ta, ty, o))),
                    _ => None,
                },
                Err(_) => None,
            },
        }
    }
}

fn member_field(pool: &mut DebugPool, rec: &DieRecord, ctx: UnitContext, offset: u64) -> (r: Result<CompositeField, DwarfError>)
    requires
        old(pool).inv(),
        spec_die_name(*rec) is Ok,
    ensures
        final(pool).inv(),
        final(pool).next_unit_index == old(pool).next_unit_index,
        final(pool).symbols == old(pool).symbols,
        final(pool).frame_rows == old(pool).frame_rows,
        match spec_type_attr(*rec) {
            Ok(o) => match alloc_opt(tables(*old(pool)), ctx.unit_index, o) {
                (ta, Some(ty)) => r matches Ok(f) && tables(*final(pool)) == ta && field_ok(f, *rec, ty, offset),
                _ => r is Err,
            },
            Err(_) => r is Err,
        },
{
    let ty = get_typeref_from_attr(pool, ctx.unit_index, rec)?;
    let ty = match ty {
        Some(t) => t,
        None => return Err(DwarfError),
    };
    let name = match die_name(rec)? {
        Some(n) => str_to_string(n),
        None => {
            let mut s = String::new();
            push_str(&mut s, "_#");
            let d = u64_to_decimal(rec.offset as u64);
            push_str(&mut s, d.as_str());
            proof {
                reveal_strlit("_#");
                assert(s@ =~= seq!['_', '#'] + spec_decimal(rec.offset as nat));
            }
            s
        },
    };
    Ok(CompositeField { name, ty, offset })
}

/// `td2` is `td` with nothing changed but what the predicates on its parts say.
pub open spec fn type_data_same_but(td: TypeData, td2: TypeData, fields: bool, parents: bool, refs: bool) -> bool {
    &&& td2.ct.name == td.ct.name
    &&& td2.ct.size == td.ct.size
    &&& (fields || td2.ct.fields == td.ct.fields)
    &&& (parents || td2.ct.parents == td.ct.parents)
    &&& td2.ct.sub_types == td.ct.sub_types
    &&& td2.ty == td.ty
    &&& td2.is_union == td.is_union
    &&& td2.enum_data == td.enum_data
    &&& (refs || td2.field_refs == td.field_refs)
}

/// An entry inside a struct or union scope `td` (the innermost scope of `s0`).
pub open spec fn in_type_rel(t0: Tables, s0: Seq<State>, td: TypeData, rec: DieRecord, ctx: UnitContext, t1: Tables, s1: Seq<State>, ok: bool) -> bool {
    let tag = rec.tag;
    if tag == DW_TAG_GNU_TEMPLATE_TEMPLATE_PARAM || tag == DW_TAG_GNU_TEMPLATE_PARAMETER_PACK
        || tag == DW_TAG_TEMPLATE_TYPE_PARAMETER || tag == DW_TAG_TEMPLATE_VALUE_PARAMETER
        || tag == DW_TAG_IMPORTED_DECLARATION || tag == DW_TAG_VARIABLE {
        ok && t1 == t0 && s1 == s0
    } else if tag == DW_TAG_INHERITANCE {
        match spec_type_attr(rec) {
            Ok(Some(o)) => {
                let (ta, tr) = alloc_slot(t0, ctx.unit_index, o);
                match rec_attr(rec, DW_AT_DATA_MEMBER_LOCATION) {
                    Some(AttrValue::Exprloc(_)) => ok && t1 == ta && s1 == s0,
                    Some(AttrValue::Udata(v)) | Some(AttrValue::Data8(v)) => {
                        &&& ok
                        &&& t1 == ta
                        &&& top_replaced(s0, s1)
                        &&& s1.last() matches State::InType(td2)
                        &&& type_data_same_but(td, td2, false, true, false)
                        &&& td2.ct.parents@ == td.ct.parents@.push((v, tr))
                    },
                    _ => !ok,
                }
            },
            _ => !ok,
        }
    } else if tag == DW_TAG_MEMBER {
        match type_member(t0, rec, ctx, td.is_union) {
            None => !ok,
            Some(None) => ok && t1 == t0 && s1 == s0,
            Some(Some((ta, ty, off))) => {
                &&& ok
                &&& t1 == ta
                &&& top_replaced(s0, s1)
                &&& s1.last() matches State::InType(td2)
                &&& type_data_same_but(td, td2, true, false, true)
                &&& field_pushed(td.ct.fields@, td2.ct.fields@, rec, ty, off)
                &&& td2.field_refs@ == td.field_refs@.push(rec.offset)
            },
        }
    } else if tag == DW_TAG_VARIANT_PART {
        let discr = match rec_attr(rec, DW_AT_DISCR) {
            None => Some(None),
            Some(AttrValue::UnitRef(o)) => Some(Some(o)),
            Some(_) => None,
        };
        match discr {
            None => !ok,
            Some(d) => {
                &&& ok
                &&& t1 == t0
                &&& pushed(s0, s1)
                &&& s1.last() matches State::EnumVariants(ed)
                &&& ed.discr_ref == d
                &&& ed.variants@.len() == 0
                &&& ed.top_fields@.len() == 0
                &&& ed.offsets@.len() == 0
            },
        }
    } else {
        !ok
    }
}

pub fn type_entry(pool: &mut DebugPool, stack: &mut Vec<State>, rec: &DieRecord, ctx: UnitContext) -> (r: Result<(), DwarfError>)
    requires
        old(pool).inv(),
        old(stack)@.len() > 0,
        old(stack)@.last() is InType,
    ensures
        final(pool).inv(),
        final(pool).next_unit_index == old(pool).next_unit_index,
        final(pool).symbols == old(pool).symbols,
        final(pool).frame_rows == old(pool).frame_rows,
        in_type_rel(tables(*old(pool)), old(stack)@, old(stack)@.last()->InType_0, *rec, ctx,
            tables(*final(pool)), final(stack)@, r is Ok),
{
    let tag = rec.tag;
    let ghost s0 = stack@;
    if tag == DW_TAG_GNU_TEMPLATE_TEMPLATE_PARAM || tag == DW_TAG_GNU_TEMPLATE_PARAMETER_PACK
        || tag == DW_TAG_TEMPLATE_TYPE_PARAMETER || tag == DW_TAG_TEMPLATE_VALUE_PARAMETER
        || tag == DW_TAG_IMPORTED_DECLARATION || tag == DW_TAG_VARIABLE {
        Ok(())
    } else if tag == DW_TAG_INHERITANCE {
        let inner = match get_typeref_from_attr(pool, ctx.unit_index, rec)? {
            Some(t) => t,
            None => return Err(DwarfError),
        };
        let ofs = match find_attr(rec, DW_AT_DATA_MEMBER_LOCATION) {
            None => return Err(DwarfError),
            Some(AttrValue::Exprloc(_)) => return Ok(()),
            Some(AttrValue::Udata(v)) => *v,
            Some(AttrValue::Data8(v)) => *v,
            Some(_) => return Err(DwarfError),
        };
        match stack.pop().unwrap() {
            State::InType(td) => {
                let ghost td0 = td;
                let mut ct = td.ct;
                ct.parents.push((ofs, inner));
                let td2 = TypeData { ct, ty: td.ty, is_union: td.is_union, enum_data: td.enum_data, field_refs: td.field_refs };
                assert(type_data_same_but(td0, td2, false, true, false));
                stack.push(State::InType(td2));
                assert(stack@.drop_last() =~= s0.drop_last());
                Ok(())
            },
            _ => Err(DwarfError),
        }
    } else if tag == DW_TAG_MEMBER {
        let name = die_name(rec)?;
        let is_union = match &stack[stack.len() - 1] {
            State::InType(td) => td.is_union,
            _ => false,
        };
        let offset = match udata_attr(rec, DW_AT_DATA_MEMBER_LOCATION)? {
            Some(x) => x,
            None => if is_union {
                0
            } else {
                return Ok(());
            },
        };
        let f = member_field(pool, rec, ctx, offset)?;
        match stack.pop().unwrap() {
            State::InType(td) => {
                let ghost td0 = td;
                let mut ct = td.ct;
                let ghost fs0 = ct.fields@;
                ct.fields.push(f);
                let mut field_refs = td.field_refs;
                field_refs.push(rec.offset);
                let td2 = TypeData { ct, ty: td.ty, is_union: td.is_union, enum_data: td.enum_data, field_refs };
                assert(td2.ct.fields@.drop_last() =~= fs0);
                assert(type_data_same_but(td0, td2, true, false, true));
                stack.push(State::InType(td2));
                assert(stack@.drop_last() =~= s0.drop_last());
                Ok(())
            },
            _ => Err(DwarfError),
        }
    } else if tag == DW_TAG_VARIANT_PART {
        let discr_ref = match find_attr(rec, DW_AT_DISCR) {
            None => None,
            Some(AttrValue::UnitRef(o)) => Some(*o),
            Some(_) => return Err(DwarfError),
        };
        stack.push(State::EnumVariants(EnumData { discr_ref, variants: Vec::new(), top_fields: Vec::new(), offsets: Vec::new() }));
        assert(stack@.drop_last() =~= s0);
        Ok(())
    } else {
        Err(DwarfError)
    }
}

/// The discriminant values of a variant, as `DW_AT_discr_value` gives them; `None`
/// when unreadable (including a discriminant list).
pub open spec fn discr_vals_ok(rec: DieRecord, dv: Seq<VariantDiscr>) -> bool {
    match rec_attr(rec, DW_AT_DISCR_VALUE) {
        Some(AttrValue::Data1(v)) => dv == seq![VariantDiscr::SingleU(v as u64, 1u8)],
        Some(AttrValue::Data2(v)) => dv == seq![VariantDiscr::SingleU(v as u64, 2u8)],
        Some(AttrValue::Data4(v)) => dv == seq![VariantDiscr::SingleU(v as u64, 4u8)],
        Some(AttrValue::Data8(v)) => dv == seq![VariantDiscr::SingleU(v, 8u8)],
        Some(AttrValue::Block(b)) => {
            &&& dv.len() == 1
            &&& dv[0] matches VariantDiscr::Data(x)
            &&& x@ == b@
        },
        Some(_) => false,
        None => rec_attr(rec, DW_AT_DISCR_LIST) is None && dv.len() == 0,
    }
}

pub open spec fn discr_vals_readable(rec: DieRecord) -> bool {
    match rec_attr(rec, DW_AT_DISCR_VALUE) {
        Some(AttrValue::Data1(_)) | Some(AttrValue::Data2(_)) | Some(AttrValue::Data4(_))
        | Some(AttrValue::Data8(_)) | Some(AttrValue::Block(_)) => true,
        Some(_) => false,
        None => rec_attr(rec, DW_AT_DISCR_LIST) is None,
    }
}

/// An entry inside an enum variant part `ed` (the innermost scope of `s0`).
pub open spec fn variants_rel(t0: Tables, s0: Seq<State>, ed: EnumData, rec: DieRecord, ctx: UnitContext, t1: Tables, s1: Seq<State>, ok: bool) -> bool {
    if rec.tag == DW_TAG_VARIANT {
        if !discr_vals_readable(rec) {
            !ok
        } else {
            &&& ok
            &&& t1 == t0
            &&& pushed(s0, s1)
            &&& s1.last() matches State::EnumVariant(ev)
            &&& discr_vals_ok(rec, ev.discr_vals@)
            &&& ev.fields@.len() == 0
        }
    } else if rec.tag == DW_TAG_MEMBER {
        match required_member(t0, rec, ctx) {
            None => !ok,
            Some((ta, ty, off)) => {
                &&& ok
                &&& t1 == ta
                &&& top_replaced(s0, s1)
                &&& s1.last() matches State::EnumVariants(ed2)
                &&& ed2.discr_ref == ed.discr_ref
                &&& ed2.variants == ed.variants
                &&& ed2.offsets@ == ed.offsets@.push(rec.offset)
                &&& field_pushed(ed.top_fields@, ed2.top_fields@, rec, ty, off)
            },
        }
    } else {
        !ok
    }
}

/// An entry inside an enum variant `ev` (the innermost scope of `s0`).
pub open spec fn variant_rel(t0: Tables, s0: Seq<State>, ev: EnumVariant, rec: DieRecord, ctx: UnitContext, t1: Tables, s1: Seq<State>, ok: bool) -> bool {
    if rec.tag == DW_TAG_MEMBER {
        match required_member(t0, rec, ctx) {
            None => !ok,
            Some((ta, ty, off)) => {
                &&& ok
                &&& t1 == ta
                &&& top_replaced(s0, s1)
                &&& s1.last() matches State::EnumVariant(ev2)
                &&& ev2.discr_vals == ev.discr_vals
                &&& field_pushed(ev.fields@, ev2.fields@, rec, ty, off)
            },
        }
    } else {
        !ok
    }
}

fn required_member_field(pool: &mut DebugPool, rec: &DieRecord, ctx: UnitContext) -> (r: Result<CompositeField, DwarfError>)
    requires
        old(pool).inv(),
    ensures
        final(pool).inv(),
        final(pool).next_unit_index == old(pool).next_unit_index,
        final(pool).symbols == old(pool).symbols,
        final(pool).frame_rows == old(pool).frame_rows,
        match required_member(tables(*old(pool)), *rec, ctx) {
            Some((ta, ty, off)) => r matches Ok(f) && tables(*final(pool)) == ta && field_ok(f, *rec, ty, off),
            None => r is Err,
        },
{
    let _ = die_name(rec)?;
    let offset = match udata_attr(rec, DW_AT_DATA_MEMBER_LOCATION)? {
        Some(x) => x,
        None => return Err(DwarfError),
    };
    member_field(pool, rec, ctx, offset)
}

fn copy_discr(rec: &DieRecord) -> (r: Result<Vec<VariantDiscr>, DwarfError>)
    ensures
        r is Err <==> !discr_vals_readable(*rec),
        r matches Ok(v) ==> discr_vals_ok(*rec, v@),
{
    let mut v = Vec::new();
    match find_attr(rec, DW_AT_DISCR_VALUE) {
        Some(AttrValue::Data1(x)) => v.push(VariantDiscr::SingleU(*x as u64, 1)),
        Some(AttrValue::Data2(x)) => v.push(VariantDiscr::SingleU(*x as u64, 2)),
        Some(AttrValue::Data4(x)) => v.push(VariantDiscr::SingleU(*x as u64, 4)),
        Some(AttrValue::Data8(x)) => v.push(VariantDiscr::SingleU(*x, 8)),
        Some(AttrValue::Block(b)) => v.push(VariantDiscr::Data(copy_bytes(b))),
        Some(_) => return Err(DwarfError),
        None => {
            if find_attr(rec, DW_AT_DISCR_LIST).is_some() {
                return Err(DwarfError);
            }
        },
    }
    proof {
        match rec_attr(*rec, DW_AT_DISCR_VALUE) {
            Some(AttrValue::Block(_)) => {},
            _ => {
                assert(v@ =~= seq![v@[0]] || v@.len() == 0);
            },
        }
    }
    Ok(v)
}

pub fn variants_entry(pool: &mut DebugPool, stack: &mut Vec<State>, rec: &DieRecord, ctx: UnitContext) -> (r: Result<(), DwarfError>)
    requires
        old(pool).inv(),
        old(stack)@.len() > 0,
        old(stack)@.last() is EnumVariants,
    ensures
        final(pool).inv(),
        final(pool).next_unit_index == old(pool).next_unit_index,
        final(pool).symbols == old(pool).symbols,
        final(pool).frame_rows == old(pool).frame_rows,
        variants_rel(tables(*old(pool)), old(stack)@, old(stack)@.last()->EnumVariants_0, *rec, ctx,
            tables(*final(pool)), final(stack)@, r is Ok),
{
    let ghost s0 = stack@;
    if rec.tag == DW_TAG_VARIANT {
        let discr_vals = copy_discr(rec)?;
        stack.push(State::EnumVariant(EnumVariant { discr_vals, fields: Vec::new() }));
        assert(stack@.drop_last() =~= s0);
        Ok(())
    } else if rec.tag == DW_TAG_MEMBER {
        let f = required_member_field(pool, rec, ctx)?;
        match stack.pop().unwrap() {
            State::EnumVariants(ed) => {
                let mut offsets = ed.offsets;
                offsets.push(rec.offset);
                let mut top_fields = ed.top_fields;
                let ghost fs0 = top_fields@;
                top_fields.push(f);
                assert(top_fields@.drop_last() =~= fs0);
                stack.push(State::EnumVariants(EnumData { discr_ref: ed.discr_ref, variants: ed.variants, top_fields, offsets }));
                assert(stack@.drop_last() =~= s0.drop_last());
                Ok(())
            },
            _ => Err(DwarfError),
        }
    } else {
        Err(DwarfError)
    }
}

pub fn variant_entry(pool: &mut DebugPool, stack: &mut Vec<State>, rec: &DieRecord, ctx: UnitContext) -> (r: Result<(), DwarfError>)
    requires
        old(pool).inv(),
        old(stack)@.len() > 0,
        old(stack)@.last() is EnumVariant,
    ensures
        final(pool).inv(),
        final(pool).next_unit_index == old(pool).next_unit_index,
        final(pool).symbols == old(pool).symbols,
        final(pool).frame_rows == old(pool).frame_rows,
        variant_rel(tables(*old(pool)), old(stack)@, old(stack)@.last()->EnumVariant_0, *rec, ctx,
            tables(*final(pool)), final(stack)@, r is Ok),
{
    let ghost s0 = stack@;
    if rec.tag == DW_TAG_MEMBER {
        let f = required_member_field(pool, rec, ctx)?;
        match stack.pop().unwrap() {
            State::EnumVariant(ev) => {
                let mut fields = ev.fields;
                let ghost fs0 = fields@;
                fields.push(f);
                assert(fields@.drop_last() =~= fs0);
                stack.push(State::EnumVariant(EnumVariant { discr_vals: ev.discr_vals, fields }));
                assert(stack@.drop_last() =~= s0.drop_last());
                Ok(())
            },
            _ => Err(DwarfError),
        }
    } else {
        Err(DwarfError)
    }
}

// ---------------------------------------------------------------------------
// One entry

/// An entry read in the scope that is innermost in `s0` (the root when there is none).
pub open spec fn scope_rel(t0: Tables, s0: Seq<State>, rec: DieRecord, ctx: UnitContext, t1: Tables, s1: Seq<State>, ok: bool) -> bool {
    if s0.len() == 0 || s0.last() is Root {
        ok && t1 == t0 && s1 == if rec.tag == DW_TAG_COMPILE_UNIT { s0.push(State::Root) } else { s0 }
    } else {
        match s0.last() {
            State::Namespace(_) => ok && t1 == t0 && s1 == s0,
            State::InFunction(_, fr) => fn_scope_rel(t0, s0, fr.pc_range.ranges@, rec, ctx, t1, s1, ok),
            State::FcnScope(p) => fn_scope_rel(t0, s0, p.ranges@, rec, ctx, t1, s1, ok),
            State::InType(td) => in_type_rel(t0, s0, td, rec, ctx, t1, s1, ok),
            State::EnumVariants(ed) => variants_rel(t0, s0, ed, rec, ctx, t1, s1, ok),
            State::EnumVariant(ev) => variant_rel(t0, s0, ev, rec, ctx, t1, s1, ok),
            State::Root => false,
        }
    }
}

/// An entry inside a function or one of its lexical blocks, whose ranges are `pcs`.
pub open spec fn fn_scope_rel(t0: Tables, s0: Seq<State>, pcs: Seq<PcRange>, rec: DieRecord, ctx: UnitContext, t1: Tables, s1: Seq<State>, ok: bool) -> bool {
    if rec.tag == DW_TAG_LEXICAL_BLOCK {
        t1 == t0 && lexical_block_rel(s0, rec, ctx, s1, ok)
    } else if rec.tag == DW_TAG_VARIABLE {
        variable_rel(t0, s0, pcs, rec, ctx, t1, s1, ok)
    } else {
        ok && t1 == t0 && s1 == s0
    }
}

/// Reading entry `rec` once the scopes deeper than it are closed: entries that declare
/// types, namespaces and functions are handled first; the others (and namespaces and
/// array types, after that) according to the innermost scope.  An entry nested deeper than
/// the open scopes (inside an entry that opens none) is skipped.
pub open spec fn entry_rel(t0: Tables, s0: Seq<State>, rec: DieRecord, ctx: UnitContext, t1: Tables, s1: Seq<State>, ok: bool) -> bool {
    let tag = rec.tag;
    if rec.depth > s0.len() {
        ok && t1 == t0 && s1 == s0
    } else if tag == DW_TAG_NAMESPACE {
        t1 == t0 && namespace_rel(s0, rec, s1, ok)
    } else if tag == DW_TAG_SUBPROGRAM {
        t1 == t0 && subprogram_rel(s0, rec, ctx, s1, ok)
    } else if tag == DW_TAG_BASE_TYPE {
        base_type_rel(t0, s0, rec, ctx, t1, s1, ok)
    } else if tag == DW_TAG_TYPEDEF {
        typedef_rel(t0, s0, rec, ctx, t1, s1, ok)
    } else if tag == DW_TAG_ARRAY_TYPE {
        match array_first(t0, rec, ctx) {
            None => !ok,
            Some(ta) => scope_rel(ta, s0, rec, ctx, t1, s1, ok),
        }
    } else if tag == DW_TAG_STRUCTURE_TYPE || tag == DW_TAG_CLASS_TYPE {
        composite_rel(t0, s0, rec, ctx, false, t1, s1, ok)
    } else if tag == DW_TAG_UNION_TYPE {
        composite_rel(t0, s0, rec, ctx, true, t1, s1, ok)
    } else if tag == DW_TAG_ENUMERATION_TYPE {
        enumeration_rel(t0, s0, rec, ctx, t1, s1, ok)
    } else if tag == DW_TAG_CONST_TYPE || tag == DW_TAG_POINTER_TYPE || tag == DW_TAG_REFERENCE_TYPE
        || tag == DW_TAG_RVALUE_REFERENCE_TYPE {
        s1 == s0 && indirection_rel(t0, Seq::empty(), rec, ctx, t1, Seq::empty(), ok)
    } else {
        scope_rel(t0, s0, rec, ctx, t1, s1, ok)
    }
}

fn scope_entry(pool: &mut DebugPool, stack: &mut Vec<State>, rec: &DieRecord, ctx: UnitContext) -> (r: Result<(), DwarfError>)
    requires
        old(pool).inv(),
    ensures
        final(pool).inv(),
        final(pool).next_unit_index == old(pool).next_unit_index,
        final(pool).symbols == old(pool).symbols,
        final(pool).frame_rows == old(pool).frame_rows,
        scope_rel(tables(*old(pool)), old(stack)@, *rec, ctx, tables(*final(pool)), final(stack)@, r is Ok),
{
    let n = stack.len();
    if n == 0 {
        if rec.tag == DW_TAG_COMPILE_UNIT {
            stack.push(State::Root);
        }
        return Ok(());
    }
    let ghost s0 = stack@;
    let kind: u8 = match &stack[n - 1] {
        State::Root => 0,
        State::Namespace(_) => 1,
        State::InFunction(_, _) => 2,
        State::FcnScope(_) => 3,
        State::InType(_) => 4,
        State::EnumVariants(_) => 5,
        State::EnumVariant(_) => 6,
    };
    if kind == 0 {
        if rec.tag == DW_TAG_COMPILE_UNIT {
            stack.push(State::Root);
        }
        Ok(())
    } else if kind == 1 {
        Ok(())
    } else if kind == 2 || kind == 3 {
        if rec.tag == DW_TAG_LEXICAL_BLOCK {
            open_lexical_block(stack, rec, ctx)
        } else if rec.tag == DW_TAG_VARIABLE {
            let pcs = match &stack[n - 1] {
                State::InFunction(_, fr) => fr.pc_range.duplicate(),
                State::FcnScope(p) => p.duplicate(),
                _ => PcRanges { ranges: Vec::new() },
            };
            scope_variable(pool, stack, &pcs, rec, ctx)
        } else {
            Ok(())
        }
    } else if kind == 4 {
        type_entry(pool, stack, rec, ctx)
    } else if kind == 5 {
        variants_entry(pool, stack, rec, ctx)
    } else {
        variant_entry(pool, stack, rec, ctx)
    }
}

fn open_entry(pool: &mut DebugPool, stack: &mut Vec<State>, rec: &DieRecord, ctx: UnitContext) -> (r: Result<(), DwarfError>)
    requires
        old(pool).inv(),
    ensures
        final(pool).inv(),
        final(pool).next_unit_index == old(pool).next_unit_index,
        final(pool).symbols == old(pool).symbols,
        final(pool).frame_rows == old(pool).frame_rows,
        entry_rel(tables(*old(pool)), old(stack)@, *rec, ctx, tables(*final(pool)), final(stack)@, r is Ok),
{
    let tag = rec.tag;
    if rec.depth > stack.len() {
        Ok(())
    } else if tag == DW_TAG_NAMESPACE {
        open_namespace(stack, rec)
    } else if tag == DW_TAG_SUBPROGRAM {
        open_subprogram(stack, rec, ctx)
    } else if tag == DW_TAG_BASE_TYPE {
        open_base_type(pool, stack, rec, ctx)
    } else if tag == DW_TAG_TYPEDEF {
        open_typedef(pool, stack, rec, ctx)
    } else if tag == DW_TAG_ARRAY_TYPE {
        open_array_type(pool, rec, ctx)?;
        scope_entry(pool, stack, rec, ctx)
    } else if tag == DW_TAG_STRUCTURE_TYPE || tag == DW_TAG_CLASS_TYPE {
        open_composite(pool, stack, rec, ctx, false)
    } else if tag == DW_TAG_UNION_TYPE {
        open_composite(pool, stack, rec, ctx, true)
    } else if tag == DW_TAG_ENUMERATION_TYPE {
        open_enumeration(pool, stack, rec, ctx)
    } else if tag == DW_TAG_CONST_TYPE || tag == DW_TAG_POINTER_TYPE || tag == DW_TAG_REFERENCE_TYPE
        || tag == DW_TAG_RVALUE_REFERENCE_TYPE {
        open_indirection(pool, rec, ctx)
    } else {
        scope_entry(pool, stack, rec, ctx)
    }
}

/// Reading one entry, in depth-first order: the scopes deeper than the entry are closed,
/// then the entry is read as `entry_rel` describes.
pub open spec fn die_rel(t0: Tables, s0: Seq<State>, rec: DieRecord, ctx: UnitContext, t1: Tables, s1: Seq<State>, ok: bool) -> bool {
    exists|tm: Tables, sm: Seq<State>, okm: bool|
        #[trigger] closes(t0, s0, rec.depth, tm, sm, okm) && if okm {
            entry_rel(tm, sm, rec, ctx, t1, s1, ok)
        } else {
            !ok
        }
}

/// Reads one entry of a unit into the pool, with `stack` holding the open scopes.
pub fn process_die(pool: &mut DebugPool, stack: &mut Vec<State>, rec: &DieRecord, ctx: UnitContext) -> (r: Result<(), DwarfError>)
    requires
        old(pool).inv(),
    ensures
        final(pool).inv(),
        final(pool).next_unit_index == old(pool).next_unit_index,
        final(pool).symbols == old(pool).symbols,
        final(pool).frame_rows == old(pool).frame_rows,
        die_rel(tables(*old(pool)), old(stack)@, *rec, ctx, tables(*final(pool)), final(stack)@, r is Ok),
{
    let ghost t0 = tables(*pool);
    let ghost s0 = stack@;
    let c = close_scopes(pool, stack, rec.depth);
    let ghost tm = tables(*pool);
    let ghost sm = stack@;
    match c {
        Ok(()) => {
            let r = open_entry(pool, stack, rec, ctx);
            assert(closes(t0, s0, rec.depth, tm, sm, true));
            r
        },
        Err(e) => {
            assert(closes(t0, s0, rec.depth, tm, sm, false));
            Err(e)
        },
    }
}

// ---------------------------------------------------------------------------
// Whole units

/// The entries of one unit, in depth-first order, with what they are read against
#[derive(Debug)]
pub struct UnitEntries {
    /// Whether this is a full compilation unit (the only kind this library reads)
    pub is_compilation: bool,
    pub encoding: UnitEncoding,
    pub entries: Vec<DieRecord>,
}

/// Reading entries `recs` in order turns `t0`/`s0` into `t1`/`s1`; `ok` is false when one
/// of them cannot be read.
pub open spec fn dies_rel(t0: Tables, s0: Seq<State>, recs: Seq<DieRecord>, ctx: UnitContext, t1: Tables, s1: Seq<State>, ok: bool) -> bool
    decreases recs.len(),
{
    if recs.len() == 0 {
        ok && t1 == t0 && s1 == s0
    } else {
        exists|tm: Tables, sm: Seq<State>, okm: bool|
            #[trigger] die_rel(t0, s0, recs[0], ctx, tm, sm, okm) && if okm {
                dies_rel(tm, sm, recs.drop_first(), ctx, t1, s1, ok)
            } else {
                !ok
            }
    }
}

/// Reading a unit numbered `unit_index` (relocated by `load_base`) turns `t0` into `t1`:
/// its entries are read from a single root scope, and the scopes still open after its last
/// entry are dropped.
pub open spec fn unit_rel(t0: Tables, unit: UnitEntries, unit_index: usize, load_base: u64, t1: Tables, ok: bool) -> bool {
    if !unit.is_compilation {
        !ok
    } else {
        let ctx = UnitContext { unit_index, load_base, encoding: unit.encoding };
        exists|s1: Seq<State>| #[trigger] dies_rel(t0, seq![State::Root], unit.entries@, ctx, t1, s1, ok)
    }
}

impl DebugPool {
    /// Reads the entries of one unit into the pool, numbering the unit with the next unit index.
    pub fn add_unit(&mut self, load_base: u64, unit: &UnitEntries) -> (r: Result<(), DwarfError>)
        requires
            old(self).inv(),
            old(self).next_unit_index < usize::MAX,
        ensures
            final(self).inv(),
            final(self).next_unit_index == old(self).next_unit_index + 1,
            final(self).symbols == old(self).symbols,
            final(self).frame_rows == old(self).frame_rows,
            unit_rel(tables(*old(self)), *unit, old(self).next_unit_index, load_base, tables(*final(self)), r is Ok),
    {
        let unit_index = self.next_unit_index;
        self.next_unit_index = unit_index + 1;
        if !unit.is_compilation {
            return Err(DwarfError);
        }
        let ctx = UnitContext { unit_index, load_base, encoding: unit.encoding };
        let ghost t0 = tables(*self);
        let ghost recs = unit.entries@;
        let mut stack: Vec<State> = Vec::new();
        stack.push(State::Root);
        let ghost s0 = stack@;
        assert(s0 =~= seq![State::Root]);
        let n = unit.entries.len();
        let mut i: usize = 0;
        let mut result: Result<(), DwarfError> = Ok(());
        assert(recs.skip(0) =~= recs);
        while result.is_ok() && i < n
            invariant
                self.inv(),
                self.next_unit_index == unit_index + 1,
                self.symbols == old(self).symbols,
                self.frame_rows == old(self).frame_rows,
                n == recs.len(),
                recs == unit.entries@,
                i <= n,
                result is Ok ==> forall|t1: Tables, s1: Seq<State>, ok: bool|
                    #[trigger] dies_rel(tables(*self), stack@, recs.skip(i as int), ctx, t1, s1, ok)
                        ==> dies_rel(t0, s0, recs, ctx, t1, s1, ok),
                result is Err ==> dies_rel(t0, s0, recs, ctx, tables(*self), stack@, false),
            decreases (if result is Ok { 1int } else { 0int }), n - i,
        {
            let ghost tp = tables(*self);
            let ghost sp = stack@;
            let ghost rest = recs.skip(i as int);
            assert(rest[0] == recs[i as int]);
            assert(rest.drop_first() =~= recs.skip(i + 1));
            assert(forall|t1: Tables, s1: Seq<State>, ok: bool|
                #[trigger] dies_rel(tp, sp, rest, ctx, t1, s1, ok) ==> dies_rel(t0, s0, recs, ctx, t1, s1, ok));
            let res = process_die(self, &mut stack, &unit.entries[i], ctx);
            match res {
                Ok(()) => {
                    proof {
                        assert forall|t1: Tables, s1: Seq<State>, ok: bool|
                            #[trigger] dies_rel(tables(*self), stack@, recs.skip(i + 1), ctx, t1, s1, ok)
                                implies dies_rel(t0, s0, recs, ctx, t1, s1, ok) by {
                            assert(die_rel(tp, sp, rest[0], ctx, tables(*self), stack@, true));
                            assert(dies_rel(tp, sp, rest, ctx, t1, s1, ok));
                        }
                    }
                    i = i + 1;
                },
                Err(e) => {
                    proof {
                        assert(die_rel(tp, sp, rest[0], ctx, tables(*self), stack@, false));
                        assert(dies_rel(tp, sp, rest, ctx, tables(*self), stack@, false));
                    }
                    result = Err(e);
                },
            }
        }
        if result.is_ok() {
            assert(recs.skip(n as int) =~= Seq::<DieRecord>::empty());
            assert(dies_rel(tables(*self), stack@, recs.skip(n as int), ctx, tables(*self), stack@, true));
        }
        result
    }
}

} // verus!
