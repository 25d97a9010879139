//! The debug-information model: types, functions and their variables, as
//! read from DWARF, and the pool that holds them.
use vstd::prelude::*;
use std::collections::HashMap;
use crate::frames::FrameRow;

verus! {

broadcast use vstd::std_specs::hash::group_hash_axioms;

/// Reference to a type in the debug tree (an index into the pool's type table)
#[derive(Clone, Copy, PartialEq, Eq, Structural, Hash, Debug)]
pub struct TypeRef(pub usize);

/// Where a variable lives at a given program point
#[derive(Clone, Copy, PartialEq, Eq, Structural, Debug)]
pub enum VariableLocation {
    Memory(u64),
    IntegerRegister(u64),
}

/// A half-open range of program-counter values
#[derive(Clone, Copy, PartialEq, Eq, Structural, Debug)]
pub struct PcRange {
    pub start: u64,
    pub end: u64,
}

impl PcRange {
    pub open spec fn spec_contains(self, pc: u64) -> bool {
        self.start <= pc && pc < self.end
    }

    pub fn contains(&self, pc: u64) -> (b: bool)
        ensures
            b == self.spec_contains(pc),
    {
        self.start <= pc && pc < self.end
    }
}

/// A set of program-counter ranges
#[derive(Debug)]
pub struct PcRanges {
    pub ranges: Vec<PcRange>,
}

impl PcRanges {
    pub open spec fn spec_contains(&self, pc: u64) -> bool {
        exists|i: int| 0 <= i < self.ranges@.len() && #[trigger] self.ranges@[i].spec_contains(pc)
    }

    pub fn is_empty(&self) -> (b: bool)
        ensures
            b == (self.ranges@.len() == 0),
    {
        self.ranges.len() == 0
    }

    pub fn contains(&self, pc: u64) -> (b: bool)
        ensures
            b == self.spec_contains(pc),
    {
        let n = self.ranges.len();
        for i in 0..n
            invariant
                n == self.ranges@.len(),
                forall|j: int| 0 <= j < i ==> !#[trigger] self.ranges@[j].spec_contains(pc),
        {
            if self.ranges[i].contains(pc) {
                return true;
            }
        }
        false
    }

    /// An independent copy holding the same ranges.
    pub fn duplicate(&self) -> (r: PcRanges)
        ensures
            r.ranges@ == self.ranges@,
    {
        let mut v: Vec<PcRange> = Vec::new();
        let n = self.ranges.len();
        for i in 0..n
            invariant
                n == self.ranges@.len(),
                v@ == self.ranges@.take(i as int),
        {
            v.push(self.ranges[i]);
            assert(v@ =~= self.ranges@.take(i + 1));
        }
        assert(v@ =~= self.ranges@);
        PcRanges { ranges: v }
    }
}

#[derive(Clone, Copy, PartialEq, Eq, Structural, Debug)]
pub enum PointerClass {
    // Bog standard pointer
    Bare,
    // C++ `Foo&` type
    Reference,
    // C++ `Foo&&` type
    RValueReference,
}

#[derive(Debug)]
pub struct PrimitiveType {
    pub name: String,
    pub bits: u32,
}

#[derive(Debug)]
pub struct CompositeField {
    pub offset: u64,
    pub name: String,
    pub ty: TypeRef,
}

#[derive(Debug)]
pub struct CompositeType {
    pub name: String,
    pub size: usize,
    pub fields: Vec<CompositeField>,
    pub parents: Vec<(u64, TypeRef)>,
    /// Named types declared inside this one (typedefs), without duplicate names
    pub sub_types: Vec<(String, TypeRef)>,
}

impl CompositeType {
    pub fn new(name: String, size: usize) -> (r: Self)
        ensures
            r.name == name,
            r.size == size,
            r.fields@.len() == 0,
            r.parents@.len() == 0,
            r.sub_types@.len() == 0,
    {
        CompositeType { name, size, fields: Vec::new(), parents: Vec::new(), sub_types: Vec::new() }
    }

    pub fn name(&self) -> (r: &str)
        ensures
            r@ == self.name@,
    {
        self.name.as_str()
    }

    pub fn parents(&self) -> (r: &[(u64, TypeRef)])
        ensures
            r@ == self.parents@,
    {
        self.parents.as_slice()
    }

    pub fn iter_fields(&self) -> (r: &[CompositeField])
        ensures
            r@ == self.fields@,
    {
        self.fields.as_slice()
    }
}

#[derive(Debug)]
pub enum VariantDiscr {
    SingleU(u64, u8),
    Data(Vec<u8>),
}

#[derive(Debug)]
pub struct EnumVariant {
    pub discr_vals: Vec<VariantDiscr>,
    pub fields: Vec<CompositeField>,
}

#[derive(Debug)]
pub struct Enum {
    pub outer: CompositeType,
    pub discr_ofs: Option<u64>,
    pub variants: Vec<EnumVariant>,
}

#[derive(Debug)]
pub enum Type {
    Struct(CompositeType),
    Union(CompositeType),
    Varianted(Enum),
    Primtive(PrimitiveType),
    Pointer(TypeRef, PointerClass),
    Alias(TypeRef),
    Enum(String),
    Array(TypeRef, usize),
}

/// The encoding parameters of a compilation unit, needed to evaluate its expressions
#[derive(Clone, Copy, PartialEq, Eq, Structural, Debug)]
pub struct UnitEncoding {
    pub address_size: u8,
    pub is_dwarf64: bool,
    pub version: u16,
}

/// Where a variable is stored, as described by the debug information
#[derive(Debug)]
pub enum VariablePosition {
    Fixed(u64),
    Expr(Vec<u8>, UnitEncoding),
    OptimisedOut,
}

#[derive(Debug)]
pub struct VariableRange {
    pub pc_range: PcRanges,
    pub position: VariablePosition,
}

#[derive(Debug)]
pub struct VariableRecord {
    pub ty: TypeRef,
    pub ranges: Vec<VariableRange>,
}

#[derive(Debug)]
pub struct FunctionRecord {
    pub pc_range: PcRanges,
    pub frame_base: VariablePosition,
    /// Variables by name, without duplicate names
    pub variables: Vec<(String, VariableRecord)>,
}

/// The key under which a DIE (unit index, offset in the unit) is entered in the type table.
pub open spec fn type_key(unit_index: usize, offset: usize) -> u128 {
    ((unit_index as int) * 0x1_0000_0000_0000_0000 + (offset as int)) as u128
}

fn make_type_key(unit_index: usize, offset: usize) -> (k: u128)
    ensures
        k == type_key(unit_index, offset),
{
    assert((unit_index as int) * 0x1_0000_0000_0000_0000 + (offset as int) <= u128::MAX) by (nonlinear_arith)
        requires
            unit_index <= usize::MAX,
            offset <= usize::MAX,
            usize::MAX <= u64::MAX,
    ;
    (unit_index as u128) * 0x1_0000_0000_0000_0000u128 + (offset as u128)
}

/// An entry of a symbol table, relocated to where its file was loaded
#[derive(Debug)]
pub struct Symbol {
    pub name: String,
    pub start: u64,
    pub size: u64,
}

/// The pool of all loaded debug information
pub struct DebugPool {
    pub types: Vec<Option<Type>>,
    pub type_keys: HashMap<u128, usize>,
    pub functions: Vec<(String, FunctionRecord)>,
    pub next_unit_index: usize,
    /// The symbols of the loaded files, in order of loading
    pub symbols: Vec<Symbol>,
    /// The frame rules of the loaded files' call-frame information, in order of loading
    pub frame_rows: Vec<FrameRow>,
}

impl DebugPool {
    /// The pool's internal consistency: every entered DIE names a slot of the type table.
    pub open spec fn inv(&self) -> bool {
        forall|k: u128| #[trigger] self.type_keys@.contains_key(k) ==> self.type_keys@[k] < self.types@.len()
    }

    /// The type that `ty` names, when its slot is filled.
    pub open spec fn spec_type(&self, ty: TypeRef) -> Option<Type> {
        if ty.0 < self.types@.len() { self.types@[ty.0 as int] } else { None }
    }

    pub open spec fn is_populated(&self, ty: TypeRef) -> bool {
        self.spec_type(ty) is Some
    }

    pub fn new() -> (r: Self)
        ensures
            r.inv(),
            r.types@.len() == 0,
            r.type_keys@ == Map::<u128, usize>::empty(),
            r.functions@.len() == 0,
            r.next_unit_index == 0,
            r.symbols@.len() == 0,
            r.frame_rows@.len() == 0,
    {
        DebugPool {
            types: Vec::new(),
            type_keys: HashMap::new(),
            functions: Vec::new(),
            next_unit_index: 0,
            symbols: Vec::new(),
            frame_rows: Vec::new(),
        }
    }

    /// The type reference for the DIE at `offset` in unit `unit_index`, entering a new
    /// (unfilled) slot for a DIE not seen before.
    pub fn dwarf_type_ref(&mut self, unit_index: usize, offset: usize) -> (r: TypeRef)
        requires
            old(self).inv(),
        ensures
            final(self).inv(),
            final(self).functions == old(self).functions,
            final(self).next_unit_index == old(self).next_unit_index,
            final(self).symbols == old(self).symbols,
            final(self).frame_rows == old(self).frame_rows,
            old(self).type_keys@.contains_key(type_key(unit_index, offset)) ==> {
                &&& r.0 == old(self).type_keys@[type_key(unit_index, offset)]
                &&& final(self).types@ == old(self).types@
                &&& final(self).type_keys@ == old(self).type_keys@
            },
            !old(self).type_keys@.contains_key(type_key(unit_index, offset)) ==> {
                &&& r.0 == old(self).types@.len()
                &&& final(self).types@ == old(self).types@.push(None)
                &&& final(self).type_keys@ == old(self).type_keys@.insert(type_key(unit_index, offset), r.0)
            },
            r.0 < final(self).types@.len(),
    {
        let k = make_type_key(unit_index, offset);
        match self.type_keys.get(&k) {
            Some(i) => TypeRef(*i),
            None => {
                let i = self.types.len();
                self.types.push(None);
                self.type_keys.insert(k, i);
                TypeRef(i)
            },
        }
    }

    /// Fills the slot of `ty` with `t`.
    pub fn set_type(&mut self, ty: TypeRef, t: Type)
        requires
            old(self).inv(),
            ty.0 < old(self).types@.len(),
        ensures
            final(self).inv(),
            final(self).types@ == old(self).types@.update(ty.0 as int, Some(t)),
            final(self).type_keys@ == old(self).type_keys@,
            final(self).functions == old(self).functions,
            final(self).next_unit_index == old(self).next_unit_index,
            final(self).symbols == old(self).symbols,
            final(self).frame_rows == old(self).frame_rows,
    {
        self.types.set(ty.0, Some(t));
    }

    /// Look up the type that `ty` refers to, `None` when its slot is out of range or unfilled.
    pub fn try_get_type(&self, ty: &TypeRef) -> (r: Option<&Type>)
        ensures
            r matches Some(t) ==> self.spec_type(*ty) == Some(*t),
            r is None <==> self.spec_type(*ty) is None,
    {
        if ty.0 < self.types.len() {
            match &self.types[ty.0] {
                Some(t) => Some(t),
                None => None,
            }
        } else {
            None
        }
    }

    pub fn get_type(&self, ty: &TypeRef) -> (r: &Type)
        requires
            self.is_populated(*ty),
        ensures
            self.spec_type(*ty) == Some(*r),
    {
        self.types[ty.0].as_ref().unwrap()
    }
}

} // verus!
