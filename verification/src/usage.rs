//! Accounting of visited memory: a sparse bitmap of the 16-byte units that have been
//! claimed, and the tallies of usage by path, by type and by enum variant.
use vstd::prelude::*;
use vstd::set_lib::{set_int_range, lemma_int_range};
use std::collections::{HashMap, HashSet};
use crate::debug_info::Type;
use crate::debug_query::{type_size, type_text};
use crate::named::{add_named, count_of, names_distinct, index_of_name, lemma_index_of_name, lemma_named_map_update, named_map, position_of_name, sat_add};
use crate::type_handlers::Input;
use crate::visit_helpers::{Path, PathStep, path_text, step_text, plain_name, plain_path, law_plain_text_injective};

verus! {

broadcast use vstd::std_specs::hash::group_hash_axioms;

/// Bytes covered by one bit of the bitmap
pub const COVERAGE_PER_BIT: u64 = 16;
/// Words (of 64 bits) per chunk of the bitmap
pub const CHUNK_SIZE_ENTS: usize = 1024;
/// Bits per chunk of the bitmap
pub const CHUNK_SIZE_BITS: u64 = 65536;

/// The number of 16-byte units in the address space
pub open spec fn unit_limit() -> int {
    0x0fff_ffff_ffff_ffff
}

/// Bit `k` of `w` is set.
pub open spec fn bit_of(w: u64, k: u64) -> bool {
    (w >> k) & 1u64 == 1u64
}

/// The units that the bytes `base .. base + len` touch.
pub open spec fn area_units(base: u64, len: u64) -> Set<int> {
    Set::new(|u: int| base as int / 16 <= u && u < (base + len + 15) / 16)
}

proof fn lemma_unit_parts(u: int)
    requires
        0 <= u,
    ensures
        u == (u / 65536) * 65536 + ((u % 65536) / 64) * 64 + (u % 65536) % 64,
        0 <= (u % 65536) / 64 < 1024,
        0 <= (u % 65536) % 64 < 64,
{
    assert(u == (u / 65536) * 65536 + ((u % 65536) / 64) * 64 + (u % 65536) % 64) by (nonlinear_arith)
        requires
            0 <= u;
}

proof fn lemma_word_index(x: int, a: int, y: int, c: int)
    requires
        0 <= a < 1024,
        0 <= c < 1024,
        x * 1024 + a == y * 1024 + c,
    ensures
        x == y,
        a == c,
{
    assert(x == y) by (nonlinear_arith)
        requires
            0 <= a < 1024,
            0 <= c < 1024,
            x * 1024 + a == y * 1024 + c;
}

/// Appends `n` zero words.
fn push_zeros(v: &mut Vec<u64>, n: usize)
    ensures
        final(v)@.len() == old(v)@.len() + n,
        forall|j: int| 0 <= j < old(v)@.len() ==> #[trigger] final(v)@[j] == old(v)@[j],
        forall|j: int| old(v)@.len() <= j < final(v)@.len() ==> #[trigger] final(v)@[j] == 0u64,
{
    let ghost v0 = v@;
    for i in 0..n
        invariant
            v@.len() == v0.len() + i,
            forall|j: int| 0 <= j < v0.len() ==> #[trigger] v@[j] == v0[j],
            forall|j: int| v0.len() <= j < v@.len() ==> #[trigger] v@[j] == 0u64,
    {
        v.push(0);
    }
}

proof fn lemma_bit_test(w: u64, k: u64)
    requires
        k < 64,
    ensures
        ((w & (1u64 << k)) == 0u64) == !bit_of(w, k),
{
    assert(((w & (1u64 << k)) == 0u64) == !((w >> k) & 1u64 == 1u64)) by (bit_vector)
        requires
            k < 64;
}

proof fn lemma_bit_set(w: u64, k: u64, j: u64)
    requires
        k < 64,
        j < 64,
    ensures
        bit_of(w | (1u64 << k), j) == (j == k || bit_of(w, j)),
{
    assert((((w | (1u64 << k)) >> j) & 1u64 == 1u64) == (j == k || (w >> j) & 1u64 == 1u64)) by (bit_vector)
        requires
            k < 64,
            j < 64;
}

proof fn lemma_bit_zero(j: u64)
    requires
        j < 64,
    ensures
        !bit_of(0, j),
{
    assert(!((0u64 >> j) & 1u64 == 1u64)) by (bit_vector)
        requires
            j < 64;
}

/// A sparse bitmap of 16-byte units: 1024 words (65536 units, 1 MiB of memory) per chunk,
/// chunks allocated when first touched.
pub struct SparseBitmap {
    /// The position (in chunks) of each allocated chunk in `words`, by chunk number
    pub index: HashMap<u64, usize>,
    /// The words of the allocated chunks, one chunk after the other
    pub words: Vec<u64>,
    /// The number of marked units
    pub count: u64,
    /// The marked units
    pub marked: Ghost<Set<int>>,
}

/// Unit `u` is set in `words`, whose chunks are placed by `index`.
pub open spec fn unit_in(index: Map<u64, usize>, words: Seq<u64>, u: int) -> bool {
    let ci = (u / 65536) as u64;
    let bit = u % 65536;
    &&& index.contains_key(ci)
    &&& bit_of(words[index[ci] * 1024 + bit / 64], (bit % 64) as u64)
}

impl SparseBitmap {
    /// Unit `u` is set in the words.
    pub open spec fn unit_set(&self, u: int) -> bool {
        unit_in(self.index@, self.words@, u)
    }

    pub open spec fn wf(&self) -> bool {
        &&& self.words@.len() % 1024 == 0
        &&& forall|k: u64| #[trigger] self.index@.contains_key(k) ==> (self.index@[k] + 1) * 1024 <= self.words@.len()
        &&& forall|k1: u64, k2: u64| #[trigger] self.index@.contains_key(k1) && #[trigger] self.index@.contains_key(k2)
            && self.index@[k1] == self.index@[k2] ==> k1 == k2
        &&& forall|u: int| 0 <= u < unit_limit() ==> (self.marked@.contains(u) <==> #[trigger] unit_in(self.index@, self.words@, u))
        &&& forall|u: int| #[trigger] self.marked@.contains(u) ==> 0 <= u < unit_limit()
        &&& self.marked@.finite()
        &&& self.count == self.marked@.len()
    }

    /// The marked units
    pub open spec fn view(&self) -> Set<int> {
        self.marked@
    }

    pub fn new() -> (r: Self)
        ensures
            r.wf(),
            r.view() == Set::<int>::empty(),
    {
        SparseBitmap { index: HashMap::new(), words: Vec::new(), count: 0, marked: Ghost(Set::empty()) }
    }

    /// The number of bytes covered by marked units.
    pub fn calculate_usage(&self) -> (r: u64)
        requires
            self.wf(),
        ensures
            r == 16 * self.view().len(),
    {
        proof {
            self.lemma_count_bound();
        }
        self.count * COVERAGE_PER_BIT
    }

    proof fn lemma_count_bound(&self)
        requires
            self.wf(),
        ensures
            self.count <= unit_limit(),
    {
        lemma_int_range(0, unit_limit());
        assert(self.marked@.subset_of(set_int_range(0, unit_limit())));
        vstd::set_lib::lemma_len_subset(self.marked@, set_int_range(0, unit_limit()));
    }

    /// The position of chunk `ci`, allocating it (all units unmarked) when it is new.
    fn chunk_position(&mut self, ci: u64) -> (p: usize)
        requires
            old(self).wf(),
        ensures
            final(self).wf(),
            final(self).view() == old(self).view(),
            final(self).count == old(self).count,
            final(self).index@.contains_key(ci),
            final(self).index@[ci] == p,
            (p + 1) * 1024 <= final(self).words@.len(),
    {
        match self.index.get(&ci) {
            Some(p) => *p,
            None => {
                let p = self.words.len() / CHUNK_SIZE_ENTS;
                let ghost old_words = self.words@;
                let ghost old_index = self.index@;
                assert(old_words.len() == p * 1024);
                push_zeros(&mut self.words, CHUNK_SIZE_ENTS);
                self.index.insert(ci, p);
                proof {
                    assert forall|k: u64| #[trigger] self.index@.contains_key(k) implies (self.index@[k] + 1) * 1024 <= self.words@.len() by {
                        if k != ci {
                            assert(old_index.contains_key(k));
                        }
                    }
                    assert forall|k1: u64, k2: u64| #[trigger] self.index@.contains_key(k1) && #[trigger] self.index@.contains_key(k2)
                        && self.index@[k1] == self.index@[k2] implies k1 == k2 by {
                        if k1 != ci {
                            assert(old_index.contains_key(k1));
                            assert((old_index[k1] + 1) * 1024 <= old_words.len());
                        }
                        if k2 != ci {
                            assert(old_index.contains_key(k2));
                            assert((old_index[k2] + 1) * 1024 <= old_words.len());
                        }
                    }
                    assert forall|u: int| 0 <= u < unit_limit() implies (self.marked@.contains(u) <==> #[trigger] unit_in(self.index@, self.words@, u)) by {
                        let cu = (u / 65536) as u64;
                        let bit = u % 65536;
                        lemma_unit_parts(u);
                        assert(self.marked@.contains(u) <==> unit_in(old_index, old_words, u));
                        if cu == ci {
                            lemma_bit_zero((bit % 64) as u64);
                            assert(!old_index.contains_key(cu));
                            assert(self.words@[p * 1024 + bit / 64] == 0u64);
                        } else {
                            if old_index.contains_key(cu) {
                                assert((old_index[cu] + 1) * 1024 <= old_words.len());
                                assert(self.words@[old_index[cu] * 1024 + bit / 64] == old_words[old_index[cu] * 1024 + bit / 64]);
                            }
                        }
                    }
                }
                p
            },
        }
    }

    /// Marks the units that the bytes `base .. base + len` touch, returning the number of
    /// bytes (16 per unit) that were not marked before.
    pub fn mark_area(&mut self, base: u64, len: u64) -> (r: u64)
        requires
            old(self).wf(),
            base + len + 15 <= u64::MAX,
        ensures
            final(self).wf(),
            final(self).view() == old(self).view().union(area_units(base, len)),
            r == 16 * (final(self).view().len() - old(self).view().len()),
    {
        let b0 = base / COVERAGE_PER_BIT;
        let bn = (base + len + (COVERAGE_PER_BIT - 1)) / COVERAGE_PER_BIT;
        let ghost start = self.marked@;
        let mut n_set: u64 = 0;
        let mut b = b0;
        assert(start.union(Set::new(|u: int| b0 <= u < b0)) =~= start);
        while b < bn
            invariant
                self.wf(),
                b0 <= b <= bn,
                b0 == base / 16,
                bn == (base + len + 15) / 16,
                bn <= unit_limit(),
                self.marked@ == start.union(Set::new(|u: int| b0 <= u < b)),
                n_set == self.marked@.len() - start.len(),
                n_set <= b - b0,
            decreases bn - b,
        {
            let ci = b / CHUNK_SIZE_BITS;
            let bit = b % CHUNK_SIZE_BITS;
            let p = self.chunk_position(ci);
            let nw = self.words.len();
            let wi = p * CHUNK_SIZE_ENTS + (bit / 64) as usize;
            let k = bit % 64;
            let m = 1u64 << k;
            let w = self.words[wi];
            proof {
                lemma_bit_test(w, k);
                assert(self.unit_set(b as int) == bit_of(w, k));
            }
            let ghost before = self.marked@;
            proof {
                self.lemma_count_bound();
            }
            let ghost old_words = self.words@;
            if w & m == 0 {
                self.words.set(wi, w | m);
                proof {
                    self.marked@ = before.insert(b as int);
                    assert forall|u: int| 0 <= u < unit_limit() implies (self.marked@.contains(u) <==> #[trigger] unit_in(self.index@, self.words@, u)) by {
                        let cu = (u / 65536) as u64;
                        let ub = u % 65536;
                        lemma_unit_parts(u);
                        lemma_unit_parts(b as int);
                        assert(before.contains(u) <==> unit_in(self.index@, old_words, u));
                        if self.index@.contains_key(cu) {
                            let ui = self.index@[cu] * 1024 + ub / 64;
                            if ui == wi {
                                lemma_word_index(self.index@[cu] as int, ub / 64, p as int, (bit / 64) as int);
                                assert(cu == ci);
                                lemma_bit_set(w, k, (ub % 64) as u64);
                            } else {
                                assert(self.words@[ui] == old_words[ui]);
                                assert(u != b);
                            }
                        }
                    }
                    assert(!before.contains(b as int));
                }
                self.count = self.count + 1;
                n_set = n_set + 1;
            } else {
                assert(before.contains(b as int));
            }
            proof {
                assert(self.marked@ =~= start.union(Set::new(|u: int| b0 <= u < b + 1)));
            }
            b = b + 1;
        }
        proof {
            assert(Set::new(|u: int| b0 <= u < b) =~= area_units(base, len));
        }
        n_set * COVERAGE_PER_BIT
    }
}

// ---------------------------------------------------------------------------
// Tallies

/// The keys under which memory claimed at `path` is counted: the empty key, then the
/// path's first four steps, three, two and one (the empty key alone for the root).
pub open spec fn usage_keys(path: Seq<PathStep>) -> Seq<Seq<char>> {
    let top = if path.len() <= 4 { path.len() } else { 4 };
    seq![Seq::<char>::empty()] + Seq::new(top, |i: int| path_text(path.take(top - i)))
}

/// `m` with `size` added (saturating) under each of `keys`, in order.
pub open spec fn add_all(m: Map<Seq<char>, u64>, keys: Seq<Seq<char>>, size: u64) -> Map<Seq<char>, u64>
    decreases keys.len(),
{
    if keys.len() == 0 {
        m
    } else {
        let m2 = add_all(m, keys.drop_last(), size);
        m2.insert(keys.last(), sat_add(count_of(m2, keys.last()), size))
    }
}

/// The number of bytes claimed for a value of type `ty`: its size, or nothing when its
/// size is not known.
pub open spec fn claim_size(input: Input, ty: Type) -> u64 {
    match type_size(*input.debug, ty, input.debug.types@.len()) {
        Some(s) => s as u64,
        None => 0,
    }
}

/// What the visit of a dump has found
pub struct Output {
    /// Memory usage associated with various paths through memory (think `du`'s output),
    /// by the text of the path
    pub usage: Vec<(String, u64)>,
    /// A sparse bitmap representing used (visited) memory
    pub used_memory: SparseBitmap,
    /// Set of seen shared pointers (any sort of shared pointer, not just `std::shared_ptr`)
    pub shared_pointers: HashSet<u64>,
    /// Type instance counts, only for types claimed at the top level, by type text
    pub root_type_counts: Vec<(String, u64)>,
    /// Number of instances of each enum variant, by type name then variant name
    pub enum_variant_counts: Vec<(String, Vec<(String, u64)>)>,
}

impl Output {
    pub open spec fn wf(&self) -> bool {
        &&& self.used_memory.wf()
        &&& names_distinct(self.usage@)
        &&& names_distinct(self.root_type_counts@)
        &&& names_distinct(self.enum_variant_counts@)
        &&& forall|i: int| 0 <= i < self.enum_variant_counts@.len() ==> #[trigger] names_distinct(self.enum_variant_counts@[i].1@)
    }

    pub fn new() -> (r: Self)
        ensures
            r.wf(),
            r.used_memory.view() == Set::<int>::empty(),
            r.usage@.len() == 0,
            r.shared_pointers@ == Set::<u64>::empty(),
            r.root_type_counts@.len() == 0,
            r.enum_variant_counts@.len() == 0,
    {
        Output {
            usage: Vec::new(),
            used_memory: SparseBitmap::new(),
            shared_pointers: HashSet::new(),
            root_type_counts: Vec::new(),
            enum_variant_counts: Vec::new(),
        }
    }

    /// Marks the `size` bytes at `addr` as used and, with `assoc`, counts them under the
    /// path (see `usage_keys`). Returns the number of bytes newly marked.
    pub fn claim_raw(&mut self, path: &Path, addr: u64, size: u64, assoc: bool) -> (r: u64)
        requires
            old(self).wf(),
            addr + size + 15 <= u64::MAX,
        ensures
            final(self).wf(),
            final(self).used_memory.view() == old(self).used_memory.view().union(area_units(addr, size)),
            r == 16 * (final(self).used_memory.view().len() - old(self).used_memory.view().len()),
            named_map(final(self).usage@) == if assoc {
                add_all(named_map(old(self).usage@), usage_keys(path@), size)
            } else {
                named_map(old(self).usage@)
            },
            final(self).shared_pointers@ == old(self).shared_pointers@,
            final(self).root_type_counts == old(self).root_type_counts,
            final(self).enum_variant_counts == old(self).enum_variant_counts,
    {
        // Mark it as used in the memory map
        let r = self.used_memory.mark_area(addr, size);
        if !assoc {
            return r;
        }
        let ghost keys = usage_keys(path@);
        let ghost m0 = named_map(self.usage@);
        let ghost um = self.used_memory;
        // Associate the used memory
        proof { reveal_strlit(""); }
        assert(""@ =~= Seq::<char>::empty());
        assert(keys.take(0) =~= Seq::<Seq<char>>::empty());
        assert(keys.take(1).drop_last() =~= keys.take(0));
        assert(keys.take(1).last() == keys[0]);
        assert(keys[0] == Seq::<char>::empty());
        assert(add_all(m0, keys.take(0), size) == m0);
        assert(add_all(m0, keys.take(1), size) == m0.insert(keys[0], sat_add(count_of(m0, keys[0]), size)));
        add_named(&mut self.usage, "", size);
        let n = path.len();
        let top: usize = if n <= 4 { n } else { 4 };
        for k in 0..top
            invariant
                self.wf(),
                n == path@.len(),
                top == if n <= 4 { n } else { 4 },
                keys == usage_keys(path@),
                keys.len() == top + 1,
                named_map(self.usage@) == add_all(m0, keys.take(k + 1), size),
                self.shared_pointers@ == old(self).shared_pointers@,
                self.root_type_counts == old(self).root_type_counts,
                self.enum_variant_counts == old(self).enum_variant_counts,
                self.used_memory == um,
        {
            let prefix = path.get_prefix(top - k);
            let t = prefix.to_string();
            assert(path@.take(path@.len() as int) =~= path@);
            assert(prefix@ == path@.take(top - k));
            assert(keys[k + 1] == path_text(path@.take(top - k)));
            assert(keys.take(k + 2).drop_last() =~= keys.take(k + 1));
            assert(keys.take(k + 2).last() == keys[k + 1]);
            add_named(&mut self.usage, t.as_str(), size);
        }
        assert(keys.take(top + 1) =~= keys);
        r
    }

    /// Annotate the existence of a top-level type at a location: its bytes are claimed and
    /// counted under the path, and the type's instance count goes up by one.
    pub fn claim(&mut self, input: &Input, path: &Path, addr: u64, ty: &Type) -> (r: u64)
        requires
            old(self).wf(),
            addr + claim_size(*input, *ty) + 15 <= u64::MAX,
        ensures
            final(self).wf(),
            final(self).used_memory.view() == old(self).used_memory.view().union(area_units(addr, claim_size(*input, *ty))),
            r == 16 * (final(self).used_memory.view().len() - old(self).used_memory.view().len()),
            named_map(final(self).usage@) == add_all(named_map(old(self).usage@), usage_keys(path@), claim_size(*input, *ty)),
            named_map(final(self).root_type_counts@) == named_map(old(self).root_type_counts@).insert(
                type_text(*input.debug, *ty, input.debug.types@.len()),
                sat_add(count_of(named_map(old(self).root_type_counts@), type_text(*input.debug, *ty, input.debug.types@.len())), 1)),
            final(self).shared_pointers@ == old(self).shared_pointers@,
            final(self).enum_variant_counts == old(self).enum_variant_counts,
    {
        // Get the size of this type
        let size: u64 = match input.debug.size_of(ty) {
            Some(s) => s as u64,
            None => 0,
        };
        let r = self.claim_raw(path, addr, size, true);
        let name = input.debug.fmt_type(ty);
        add_named(&mut self.root_type_counts, name.as_str(), 1);
        r
    }

    /// Records that `addr` is the target of a shared pointer; true when it was not already.
    pub fn note_shared(&mut self, addr: u64) -> (r: bool)
        ensures
            final(self).shared_pointers@ == old(self).shared_pointers@.insert(addr),
            r == !old(self).shared_pointers@.contains(addr),
            final(self).used_memory == old(self).used_memory,
            final(self).usage == old(self).usage,
            final(self).root_type_counts == old(self).root_type_counts,
            final(self).enum_variant_counts == old(self).enum_variant_counts,
    {
        self.shared_pointers.insert(addr)
    }

    /// Counts one more instance of variant `variant` of the enum type named `ty`.
    pub fn count_variant(&mut self, ty: &str, variant: &str)
        ensures
            old(self).wf() ==> final(self).wf(),
            final(self).used_memory == old(self).used_memory,
            final(self).usage == old(self).usage,
            final(self).shared_pointers@ == old(self).shared_pointers@,
            final(self).root_type_counts == old(self).root_type_counts,
            match index_of_name(old(self).enum_variant_counts@, ty@) {
                Some(i) => {
                    &&& named_map(final(self).enum_variant_counts@).dom() == named_map(old(self).enum_variant_counts@).dom()
                    &&& forall|k: Seq<char>| k != ty@ && #[trigger] named_map(old(self).enum_variant_counts@).contains_key(k)
                        ==> named_map(final(self).enum_variant_counts@)[k] == named_map(old(self).enum_variant_counts@)[k]
                    &&& named_map(named_map(final(self).enum_variant_counts@)[ty@]@) == named_map(old(self).enum_variant_counts@[i].1@).insert(
                        variant@, sat_add(count_of(named_map(old(self).enum_variant_counts@[i].1@), variant@), 1))
                },
                None => {
                    &&& named_map(final(self).enum_variant_counts@).dom() == named_map(old(self).enum_variant_counts@).dom().insert(ty@)
                    &&& forall|k: Seq<char>| k != ty@ && #[trigger] named_map(old(self).enum_variant_counts@).contains_key(k)
                        ==> named_map(final(self).enum_variant_counts@)[k] == named_map(old(self).enum_variant_counts@)[k]
                    &&& named_map(named_map(final(self).enum_variant_counts@)[ty@]@) == map![variant@ => 1u64]
                },
            },
            forall|t: Seq<char>, v: Seq<char>| #[trigger] variant_count(*final(self), t, v) == if t == ty@ && v == variant@ {
                sat_add(variant_count(*old(self), t, v), 1)
            } else {
                variant_count(*old(self), t, v)
            },
    {
        proof {
            lemma_index_of_name(self.enum_variant_counts@, ty@);
        }
        let ghost old_v = self.enum_variant_counts@;
        match position_of_name(&self.enum_variant_counts, ty) {
            Some(i) => {
                let (name, mut inner) = self.enum_variant_counts.remove(i);
                let ghost old_inner = inner@;
                add_named(&mut inner, variant, 1);
                let ghost new_inner = inner;
                self.enum_variant_counts.insert(i, (name, inner));
                proof {
                    if old(self).wf() {
                        assert(names_distinct(old_inner));
                        let nv = self.enum_variant_counts@;
                        assert(nv =~= old_v.update(i as int, (old_v[i as int].0, new_inner)));
                        assert forall|a: int, b: int| 0 <= a < b < nv.len() implies #[trigger] nv[a].0@ != #[trigger] nv[b].0@ by {
                            assert(nv[a].0 == old_v[a].0 && nv[b].0 == old_v[b].0);
                        }
                        assert forall|j: int| 0 <= j < nv.len() implies #[trigger] names_distinct(nv[j].1@) by {
                            if j != i {
                                assert(nv[j] == old_v[j]);
                            }
                        }
                    }
                    assert(self.enum_variant_counts@ =~= old_v.update(i as int, (old_v[i as int].0, new_inner)));
                    lemma_named_map_update(old_v, ty@, i as int, new_inner);
                    crate::named::lemma_named_map(old_v, ty@);
                    assert(named_map(self.enum_variant_counts@).dom() =~= named_map(old_v).dom());
                    assert(named_map(old_v)[ty@] == old_v[i as int].1);
                    let m0 = named_map(old_v);
                    let m1 = named_map(self.enum_variant_counts@);
                    assert(m1 =~= m0.insert(ty@, new_inner));
                    assert forall|t: Seq<char>, v: Seq<char>| #[trigger] variant_count(*self, t, v) == if t == ty@ && v == variant@ {
                        sat_add(variant_count(*old(self), t, v), 1)
                    } else {
                        variant_count(*old(self), t, v)
                    } by {
                        if t == ty@ {
                            assert(m1[t] == new_inner);
                            assert(m0[t] == old_v[i as int].1);
                        } else {
                            assert(m1.contains_key(t) == m0.contains_key(t));
                        }
                    }
                }
            },
            None => {
                let mut inner: Vec<(String, u64)> = Vec::new();
                add_named(&mut inner, variant, 1);
                let ghost new_inner = inner;
                let e = (crate::text::str_to_string(ty), inner);
                self.enum_variant_counts.push(e);
                proof {
                    if old(self).wf() {
                        crate::named::lemma_index_of_name(old_v, ty@);
                        let nv = self.enum_variant_counts@;
                        assert forall|a: int, b: int| 0 <= a < b < nv.len() implies #[trigger] nv[a].0@ != #[trigger] nv[b].0@ by {
                            assert(nv[a] == old_v[a]);
                            if b < old_v.len() {
                                assert(nv[b] == old_v[b]);
                            }
                        }
                        assert(names_distinct(new_inner@)) by {
                            assert(new_inner@.len() == 1 || names_distinct(new_inner@));
                        }
                        assert forall|j: int| 0 <= j < nv.len() implies #[trigger] names_distinct(nv[j].1@) by {
                            if j < old_v.len() {
                                assert(nv[j] == old_v[j]);
                            }
                        }
                    }
                    assert(self.enum_variant_counts@.drop_last() =~= old_v);
                    crate::named::lemma_named_inserted_map(old_v, self.enum_variant_counts@, ty@, new_inner);
                    assert(named_map(new_inner@) =~= map![variant@ => 1u64]);
                    crate::named::lemma_named_map(old_v, ty@);
                    let m0 = named_map(old_v);
                    let m1 = named_map(self.enum_variant_counts@);
                    assert(!m0.contains_key(ty@));
                    assert forall|t: Seq<char>, v: Seq<char>| #[trigger] variant_count(*self, t, v) == if t == ty@ && v == variant@ {
                        sat_add(variant_count(*old(self), t, v), 1)
                    } else {
                        variant_count(*old(self), t, v)
                    } by {
                        if t == ty@ {
                            assert(m1[t] == new_inner);
                        } else {
                            assert(m1.contains_key(t) == m0.contains_key(t));
                        }
                    }
                }
            },
        }
    }
}

/// The count of variant `v` of the enum type named `t` in `o`, zero when there is none.
pub open spec fn variant_count(o: Output, t: Seq<char>, v: Seq<char>) -> u64 {
    let m = named_map(o.enum_variant_counts@);
    if m.contains_key(t) { count_of(named_map(m[t]@), v) } else { 0 }
}

/// Marking an area that is already marked changes nothing (so `mark_area` then returns
/// zero).
pub proof fn law_mark_idempotent(marked: Set<int>, base: u64, len: u64)
    requires
        area_units(base, len).subset_of(marked),
    ensures
        marked.union(area_units(base, len)) == marked,
{
    assert(marked.union(area_units(base, len)) =~= marked);
}

/// Marking an area adds at most its units: what `mark_area` returns is at most 16 bytes
/// per unit the area touches.
pub proof fn law_mark_bound(marked: Set<int>, base: u64, len: u64)
    requires
        marked.finite(),
        base + len + 15 <= u64::MAX,
    ensures
        marked.union(area_units(base, len)).len() <= marked.len() + ((base + len + 15) / 16 - base / 16),
{
    let lo = base as int / 16;
    let hi = (base + len + 15) / 16;
    assert(area_units(base, len) =~= set_int_range(lo, hi));
    lemma_int_range(lo, hi);
    vstd::set_lib::lemma_len_union(marked, area_units(base, len));
}

/// The usage a bitmap reports grows by exactly what marking returns.
pub proof fn law_usage_accounts(before: Set<int>, after: Set<int>, r: u64)
    requires
        before.finite(),
        r == 16 * (after.len() - before.len()),
    ensures
        16 * after.len() == 16 * before.len() + r,
{
}

/// Adding under keys never lowers a count.
pub proof fn lemma_add_all_monotone(m: Map<Seq<char>, u64>, ks: Seq<Seq<char>>, size: u64, k: Seq<char>)
    ensures
        count_of(m, k) <= count_of(add_all(m, ks, size), k),
    decreases ks.len(),
{
    if ks.len() > 0 {
        lemma_add_all_monotone(m, ks.drop_last(), size, k);
    }
}

/// Each key added under gets at least `size` more (saturating).
pub proof fn lemma_add_all_member(m: Map<Seq<char>, u64>, ks: Seq<Seq<char>>, size: u64, i: int)
    requires
        0 <= i < ks.len(),
    ensures
        count_of(add_all(m, ks, size), ks[i]) >= sat_add(count_of(m, ks[i]), size),
    decreases ks.len(),
{
    let m2 = add_all(m, ks.drop_last(), size);
    if i == ks.len() - 1 {
        lemma_add_all_monotone(m, ks.drop_last(), size, ks[i]);
    } else {
        lemma_add_all_member(m, ks.drop_last(), size, i);
        assert(ks.drop_last()[i] == ks[i]);
    }
}

proof fn lemma_add_all_root(m: Map<Seq<char>, u64>, ks: Seq<Seq<char>>, size: u64)
    requires
        ks.len() >= 1,
        ks[0] == Seq::<char>::empty(),
        forall|i: int| 1 <= i < ks.len() ==> #[trigger] ks[i] != Seq::<char>::empty(),
    ensures
        count_of(add_all(m, ks, size), Seq::empty()) == sat_add(count_of(m, Seq::empty()), size),
    decreases ks.len(),
{
    if ks.len() == 1 {
        assert(ks.drop_last() =~= Seq::<Seq<char>>::empty());
        assert(add_all(m, ks.drop_last(), size) == m);
    } else {
        assert(ks.last() != Seq::<char>::empty());
        lemma_add_all_root(m, ks.drop_last(), size);
    }
}

/// Every byte claimed with its path is counted under the empty key: claiming `size` bytes
/// at any path adds `size` (saturating) to the count under `""`, the root of the usage tree.
pub proof fn law_claim_counts_root(m: Map<Seq<char>, u64>, path: Seq<PathStep>, size: u64)
    ensures
        count_of(add_all(m, usage_keys(path), size), Seq::empty()) == sat_add(count_of(m, Seq::empty()), size),
{
    let keys = usage_keys(path);
    assert forall|i: int| 1 <= i < keys.len() implies #[trigger] keys[i] != Seq::<char>::empty() by {
        let top: int = if path.len() <= 4 { path.len() as int } else { 4 };
        let p = path.take(top - (i - 1));
        assert(keys[i] == path_text(p));
        assert(p.len() >= 1);
        assert(path_text(p) == path_text(p.drop_last()) + step_text(p.last()));
        assert(step_text(p.last()).len() >= 1);
    }
    lemma_add_all_root(m, keys, size);
}

/// The units marked after the marks `marks` (base, length), made in turn from `s`.
pub open spec fn marked_after(s: Set<int>, marks: Seq<(u64, u64)>) -> Set<int>
    decreases marks.len(),
{
    if marks.len() == 0 {
        s
    } else {
        marked_after(s, marks.drop_last()).union(area_units(marks.last().0, marks.last().1))
    }
}

/// What the marks `marks`, made in turn from `s`, return added up: each returns 16 bytes
/// for each unit it newly marks (see `mark_area`).
pub open spec fn returned_total(s: Set<int>, marks: Seq<(u64, u64)>) -> int
    decreases marks.len(),
{
    if marks.len() == 0 {
        0
    } else {
        returned_total(s, marks.drop_last())
            + 16 * (marked_after(s, marks).len() - marked_after(s, marks.drop_last()).len())
    }
}

proof fn lemma_area_finite(base: u64, len: u64)
    ensures
        area_units(base, len).finite(),
{
    let lo = base as int / 16;
    let hi = (base + len + 15) / 16;
    assert(area_units(base, len) =~= set_int_range(lo, hi));
    lemma_int_range(lo, hi);
}

/// From a fresh bitmap, the usage reported after any marks (16 bytes per marked unit,
/// see `calculate_usage`) is what the marks returned, added up.
pub proof fn law_marks_add_up(marks: Seq<(u64, u64)>)
    ensures
        marked_after(Set::<int>::empty(), marks).finite(),
        returned_total(Set::<int>::empty(), marks) == 16 * marked_after(Set::<int>::empty(), marks).len(),
    decreases marks.len(),
{
    if marks.len() > 0 {
        law_marks_add_up(marks.drop_last());
        lemma_area_finite(marks.last().0, marks.last().1);
    }
}

/// The usage map after the claims `claims` (path, size), made in turn from `m`.
pub open spec fn usage_after(m: Map<Seq<char>, u64>, claims: Seq<(Seq<PathStep>, u64)>) -> Map<Seq<char>, u64>
    decreases claims.len(),
{
    if claims.len() == 0 {
        m
    } else {
        add_all(usage_after(m, claims.drop_last()), usage_keys(claims.last().0), claims.last().1)
    }
}

/// No key's total exceeds that of the root key `""`.
pub open spec fn root_covers(m: Map<Seq<char>, u64>) -> bool {
    forall|k: Seq<char>| #[trigger] count_of(m, k) <= count_of(m, Seq::empty())
}

proof fn lemma_path_text_len(p: Seq<PathStep>)
    ensures
        path_text(p).len() >= p.len(),
    decreases p.len(),
{
    if p.len() > 0 {
        lemma_path_text_len(p.drop_last());
        assert(step_text(p.last()).len() >= 1);
    }
}

proof fn lemma_add_all_bounded(m: Map<Seq<char>, u64>, ks: Seq<Seq<char>>, size: u64, k: Seq<char>)
    requires
        ks.no_duplicates(),
    ensures
        count_of(add_all(m, ks, size), k) == if ks.contains(k) { sat_add(count_of(m, k), size) } else { count_of(m, k) },
    decreases ks.len(),
{
    if ks.len() > 0 {
        let init = ks.drop_last();
        assert(init.no_duplicates()) by {
            assert forall|a: int, b: int| 0 <= a < b < init.len() implies init[a] != init[b] by {
                assert(init[a] == ks[a] && init[b] == ks[b]);
            }
        }
        lemma_add_all_bounded(m, init, size, k);
        if k == ks.last() {
            assert(!init.contains(k)) by {
                if init.contains(k) {
                    let a = choose|a: int| 0 <= a < init.len() && init[a] == k;
                    assert(ks[a] == ks[ks.len() - 1]);
                }
            }
            assert(ks.contains(k)) by { assert(ks[ks.len() - 1] == k); }
        } else {
            assert(ks.contains(k) == init.contains(k)) by {
                if ks.contains(k) {
                    let a = choose|a: int| 0 <= a < ks.len() && ks[a] == k;
                    assert(a < ks.len() - 1);
                    assert(init[a] == k);
                }
                if init.contains(k) {
                    let a = choose|a: int| 0 <= a < init.len() && init[a] == k;
                    assert(ks[a] == k);
                }
            }
        }
    }
}

proof fn lemma_usage_keys_distinct(path: Seq<PathStep>)
    ensures
        usage_keys(path).no_duplicates(),
        usage_keys(path).len() >= 1,
        usage_keys(path)[0] == Seq::<char>::empty(),
{
    let keys = usage_keys(path);
    let top: int = if path.len() <= 4 { path.len() as int } else { 4 };
    assert forall|i: int| 1 <= i < keys.len() implies #[trigger] keys[i].len() == path_text(path.take(top - (i - 1))).len()
        && keys[i].len() >= top - (i - 1) by {
        lemma_path_text_len(path.take(top - (i - 1)));
    }
    assert forall|a: int, b: int| 0 <= a < b < keys.len() implies keys[a] != keys[b] by {
        if a == 0 {
            assert(keys[b].len() >= 1);
        } else {
            lemma_prefix_text_longer(path, top - (b - 1), top - (a - 1));
        }
    }
}

proof fn lemma_prefix_text_longer(path: Seq<PathStep>, i: int, j: int)
    requires
        0 <= i < j <= path.len(),
    ensures
        path_text(path.take(i)).len() < path_text(path.take(j)).len(),
    decreases j - i,
{
    let q = path.take(j);
    assert(q.drop_last() =~= path.take(j - 1));
    assert(step_text(q.last()).len() >= 1);
    if i < j - 1 {
        lemma_prefix_text_longer(path, i, j - 1);
    }
}

/// Claims keep the root key's total at least that of any other key: from an empty map,
/// after any claims, `""` (the whole of what was claimed with its path) covers every
/// other key.
pub proof fn law_root_covers_all(claims: Seq<(Seq<PathStep>, u64)>)
    ensures
        root_covers(usage_after(Map::empty(), claims)),
    decreases claims.len(),
{
    if claims.len() > 0 {
        law_root_covers_all(claims.drop_last());
        let m = usage_after(Map::empty(), claims.drop_last());
        let (p, size) = claims.last();
        let ks = usage_keys(p);
        lemma_usage_keys_distinct(p);
        let e = Seq::<char>::empty();
        assert(ks.contains(e)) by { assert(ks[0] == e); }
        lemma_add_all_bounded(m, ks, size, e);
        assert forall|k: Seq<char>| #[trigger] count_of(add_all(m, ks, size), k) <= count_of(add_all(m, ks, size), e) by {
            lemma_add_all_bounded(m, ks, size, k);
            assert(count_of(m, k) <= count_of(m, e));
        }
    }
}


proof fn lemma_plain_prefix(c: Seq<PathStep>, m: int)
    requires
        plain_path(c),
        0 <= m <= c.len(),
    ensures
        plain_path(c.take(m)),
{
    assert forall|i: int| 0 <= i < c.take(m).len() implies (#[trigger] c.take(m)[i] matches PathStep::Field(n) ==> plain_name(n)) by {
        assert(c.take(m)[i] == c[i]);
    }
}

/// Where a claim's usage keys hold the text of a plain path `p`, they hold the text of
/// each of `p`'s prefixes too.
proof fn lemma_keys_hold_prefixes(c: Seq<PathStep>, p: Seq<PathStep>, j: int)
    requires
        plain_path(c),
        plain_path(p),
        0 <= j <= p.len(),
        usage_keys(c).contains(path_text(p)),
    ensures
        usage_keys(c).contains(path_text(p.take(j))),
{
    let ks = usage_keys(c);
    let top: int = if c.len() <= 4 { c.len() as int } else { 4 };
    lemma_usage_keys_distinct(c);
    let idx = choose|idx: int| 0 <= idx < ks.len() && ks[idx] == path_text(p);
    if idx == 0 {
        lemma_path_text_len(p);
        assert(p.take(j) =~= p);
    } else {
        let m = top - (idx - 1);
        assert(ks[idx] == path_text(c.take(m)));
        lemma_plain_prefix(c, m);
        law_plain_text_injective(p, c.take(m));
        assert(p.take(j) =~= c.take(j));
        if j == 0 {
            assert(path_text(p.take(j)) =~= Seq::<char>::empty());
            assert(ks[0] == path_text(p.take(j)));
        } else {
            assert(ks[top - j + 1] == path_text(c.take(j)));
        }
    }
}

/// Claims count a path's bytes under each of its ancestors too, as `du` does: from an
/// empty map, after claims whose paths are all plain (see `plain_path`), the total under
/// the text of any prefix of a plain path `p` is at least the total under `p`'s own text.
/// (Field names that hold `.`, `#` or `[`, or are `*`, can give two paths the same text,
/// and then this need not hold.)
pub proof fn law_ancestor_covers(claims: Seq<(Seq<PathStep>, u64)>, p: Seq<PathStep>, j: int)
    requires
        forall|i: int| 0 <= i < claims.len() ==> plain_path(#[trigger] claims[i].0),
        plain_path(p),
        0 <= j <= p.len(),
    ensures
        count_of(usage_after(Map::empty(), claims), path_text(p))
            <= count_of(usage_after(Map::empty(), claims), path_text(p.take(j))),
    decreases claims.len(),
{
    if claims.len() > 0 {
        let init = claims.drop_last();
        assert forall|i: int| 0 <= i < init.len() implies plain_path(#[trigger] init[i].0) by {
            assert(init[i] == claims[i]);
        }
        law_ancestor_covers(init, p, j);
        let m = usage_after(Map::empty(), init);
        let (c, size) = claims.last();
        assert(claims[claims.len() - 1] == claims.last());
        let ks = usage_keys(c);
        lemma_usage_keys_distinct(c);
        lemma_add_all_bounded(m, ks, size, path_text(p));
        lemma_add_all_bounded(m, ks, size, path_text(p.take(j)));
        if ks.contains(path_text(p)) {
            lemma_keys_hold_prefixes(c, p, j);
        }
    }
}

} // verus!
