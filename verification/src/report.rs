//! The order in which the statistics of a visit are reported: counted entries by count,
//! then by name; the usage by path text.
use vstd::prelude::*;
use vstd::string::StringSliceAdditionalSpecFns;
use vstd::utf8::encode_utf8;
use crate::usage::Output;

verus! {

/// Lexicographic order of byte strings (that of `str`'s comparison).
pub open spec fn bytes_lt(a: Seq<u8>, b: Seq<u8>) -> bool
    decreases a.len(),
{
    if a.len() == 0 {
        b.len() > 0
    } else if b.len() == 0 {
        false
    } else if a[0] != b[0] {
        a[0] < b[0]
    } else {
        bytes_lt(a.drop_first(), b.drop_first())
    }
}

pub proof fn lemma_bytes_lt_transitive(a: Seq<u8>, b: Seq<u8>, c: Seq<u8>)
    requires
        bytes_lt(a, b),
        bytes_lt(b, c),
    ensures
        bytes_lt(a, c),
    decreases a.len(),
{
    if a.len() > 0 && b.len() > 0 && c.len() > 0 && a[0] == b[0] && b[0] == c[0] {
        lemma_bytes_lt_transitive(a.drop_first(), b.drop_first(), c.drop_first());
    }
}

pub proof fn lemma_bytes_lt_irreflexive(a: Seq<u8>)
    ensures
        !bytes_lt(a, a),
    decreases a.len(),
{
    if a.len() > 0 {
        lemma_bytes_lt_irreflexive(a.drop_first());
    }
}

/// `str`'s `<`.
fn str_lt(a: &str, b: &str) -> (r: bool)
    ensures
        r == bytes_lt(a.spec_bytes(), b.spec_bytes()),
{
    let x = a.as_bytes();
    let y = b.as_bytes();
    let n = x.len();
    let m = y.len();
    let mut i: usize = 0;
    assert(x@.skip(0) =~= x@ && y@.skip(0) =~= y@);
    while i < n && i < m
        invariant
            x@ == a.spec_bytes(),
            y@ == b.spec_bytes(),
            n == x@.len(),
            m == y@.len(),
            i <= n,
            i <= m,
            bytes_lt(x@, y@) == bytes_lt(x@.skip(i as int), y@.skip(i as int)),
        decreases n - i,
    {
        if x[i] != y[i] {
            assert(x@.skip(i as int)[0] == x[i as int]);
            assert(y@.skip(i as int)[0] == y[i as int]);
            return x[i] < y[i];
        }
        assert(x@.skip(i as int).drop_first() =~= x@.skip(i + 1));
        assert(y@.skip(i as int).drop_first() =~= y@.skip(i + 1));
        i = i + 1;
    }
    i == n && i < m
}

/// The order of report entries: by count, then by name.
pub open spec fn key_lt(a: (u128, Seq<u8>), b: (u128, Seq<u8>)) -> bool {
    a.0 < b.0 || (a.0 == b.0 && bytes_lt(a.1, b.1))
}

proof fn lemma_key_lt_transitive(a: (u128, Seq<u8>), b: (u128, Seq<u8>), c: (u128, Seq<u8>))
    requires
        key_lt(a, b),
        key_lt(b, c),
    ensures
        key_lt(a, c),
{
    if a.0 == b.0 && b.0 == c.0 {
        lemma_bytes_lt_transitive(a.1, b.1, c.1);
    }
}

/// The key of entry `i` of `keys`.
pub open spec fn key_of(keys: Seq<(u128, String)>, i: int) -> (u128, Seq<u8>) {
    (keys[i].0, encode_utf8(keys[i].1@))
}

/// `order` lists each index of `keys` once, in the order of their keys, and the earlier
/// of two entries with equal keys first.
pub open spec fn is_sorted_order(keys: Seq<(u128, String)>, order: Seq<usize>) -> bool {
    &&& order.len() == keys.len()
    &&& order.no_duplicates()
    &&& forall|i: int| 0 <= i < order.len() ==> #[trigger] order[i] < keys.len()
    &&& forall|i: int, j: int| 0 <= i < j < order.len()
        ==> !key_lt(#[trigger] key_of(keys, order[j] as int), #[trigger] key_of(keys, order[i] as int))
    &&& forall|i: int, j: int| 0 <= i < j < order.len() && key_of(keys, order[i] as int) == key_of(keys, order[j] as int)
        ==> #[trigger] order[i] < #[trigger] order[j]
}

/// The indices of `keys` ordered by key; of entries with equal keys, the earlier first.
pub fn sorted_order(keys: &Vec<(u128, String)>) -> (r: Vec<usize>)
    ensures
        is_sorted_order(keys@, r@),
{
    let n = keys.len();
    let mut r: Vec<usize> = Vec::new();
    for i in 0..n
        invariant
            n == keys@.len(),
            r@.len() == i,
            r@.no_duplicates(),
            forall|k: int| 0 <= k < r@.len() ==> #[trigger] r@[k] < i,
            forall|a: int, b: int| 0 <= a < b < r@.len()
                ==> !key_lt(#[trigger] key_of(keys@, r@[b] as int), #[trigger] key_of(keys@, r@[a] as int)),
            forall|a: int, b: int| 0 <= a < b < r@.len() && key_of(keys@, r@[a] as int) == key_of(keys@, r@[b] as int)
                ==> #[trigger] r@[a] < #[trigger] r@[b],
    {
        let ghost ki = key_of(keys@, i as int);
        // the first position whose entry comes after entry i
        let mut p: usize = 0;
        while p < r.len() && !(keys[i].0 < keys[r[p]].0 || (keys[i].0 == keys[r[p]].0 && str_lt(keys[i].1.as_str(), keys[r[p]].1.as_str())))
            invariant
                n == keys@.len(),
                i < n,
                r@.len() == i,
                forall|k: int| 0 <= k < r@.len() ==> #[trigger] r@[k] < i,
                p <= r@.len(),
                ki == key_of(keys@, i as int),
                forall|k: int| 0 <= k < p ==> !key_lt(ki, #[trigger] key_of(keys@, r@[k] as int)),
            decreases r@.len() - p,
        {
            p = p + 1;
        }
        let ghost r0 = r@;
        proof {
            if p < r0.len() {
                assert(key_lt(ki, key_of(keys@, r0[p as int] as int)));
            }
        }
        r.insert(p, i);
        proof {
            assert(r@ == r0.insert(p as int, i));
            assert forall|k: int| 0 <= k < r@.len() implies #[trigger] r@[k] == (if k < p { r0[k] } else if k == p { i } else { r0[k - 1] }) by {}
            assert forall|k: int| 0 <= k < r@.len() implies #[trigger] r@[k] < i + 1 by {
                if k > p {
                    assert(r@[k] == r0[k - 1]);
                }
            }
            assert forall|a: int, b: int| 0 <= a < b < r@.len() implies
                !key_lt(#[trigger] key_of(keys@, r@[b] as int), #[trigger] key_of(keys@, r@[a] as int)) by {
                assert(r@[a] == (if a < p { r0[a] } else if a == p { i } else { r0[a - 1] }));
                assert(r@[b] == (if b < p { r0[b] } else if b == p { i } else { r0[b - 1] }));
                if a == p {
                    if key_lt(key_of(keys@, r0[b - 1] as int), ki) {
                        lemma_key_lt_transitive(key_of(keys@, r0[b - 1] as int), ki, key_of(keys@, r0[p as int] as int));
                        if b - 1 > p {
                            assert(!key_lt(key_of(keys@, r0[b - 1] as int), key_of(keys@, r0[p as int] as int)));
                        } else {
                            lemma_bytes_lt_irreflexive(key_of(keys@, r0[p as int] as int).1);
                        }
                    }
                }
            }
            assert forall|a: int, b: int| 0 <= a < b < r@.len() && key_of(keys@, r@[a] as int) == key_of(keys@, r@[b] as int)
                implies #[trigger] r@[a] < #[trigger] r@[b] by {
                assert(r@[a] == (if a < p { r0[a] } else if a == p { i } else { r0[a - 1] }));
                assert(r@[b] == (if b < p { r0[b] } else if b == p { i } else { r0[b - 1] }));
                if a == p {
                    // the entry inserted comes before r0[p], so after no entry of equal key
                    assert(key_lt(ki, key_of(keys@, r0[p as int] as int)));
                    if b - 1 > p {
                        assert(!key_lt(key_of(keys@, r0[b - 1] as int), key_of(keys@, r0[p as int] as int)));
                    }
                    assert(false);
                } else if a < p && b > p {
                    assert(r0[a] < r0[b - 1]);
                } else if a > p {
                    assert(r0[a - 1] < r0[b - 1]);
                }
            }
            assert forall|a: int, b: int| 0 <= a < b < r@.len() implies r@[a] != r@[b] by {
                assert(r@[a] == (if a < p { r0[a] } else if a == p { i } else { r0[a - 1] }));
                assert(r@[b] == (if b < p { r0[b] } else if b == p { i } else { r0[b - 1] }));
                if a < p && b > p {
                    assert(r0[a] != r0[b - 1]);
                } else if a > p {
                    assert(r0[a - 1] != r0[b - 1]);
                }
            }
        }
    }
    proof {
        assert forall|k: int| 0 <= k < r@.len() implies #[trigger] r@[k] < keys@.len() by {}
    }
    r
}

/// Report keys of counted entries: the count, then the name.
pub open spec fn count_keys(s: Seq<(String, u64)>) -> Seq<(u128, String)> {
    s.map_values(|e: (String, u64)| (e.1 as u128, e.0))
}

/// Report keys by name alone.
pub open spec fn name_keys(s: Seq<(String, u64)>) -> Seq<(u128, String)> {
    s.map_values(|e: (String, u64)| (0u128, e.0))
}

/// The sum of the counts of `s`.
pub open spec fn total(s: Seq<(String, u64)>) -> int
    decreases s.len(),
{
    if s.len() == 0 { 0 } else { total(s.drop_last()) + s.last().1 }
}

proof fn lemma_total_bound(s: Seq<(String, u64)>)
    ensures
        0 <= total(s) <= s.len() * 0xffff_ffff_ffff_ffff,
    decreases s.len(),
{
    if s.len() > 0 {
        lemma_total_bound(s.drop_last());
    }
}

/// Report keys of enum types: the total of their variant counts, then the type name.
pub open spec fn total_keys(s: Seq<(String, Vec<(String, u64)>)>) -> Seq<(u128, String)> {
    s.map_values(|e: (String, Vec<(String, u64)>)| (total(e.1@) as u128, e.0))
}

fn total_exec(v: &Vec<(String, u64)>) -> (r: u128)
    ensures
        r == total(v@),
{
    let n = v.len();
    let mut t: u128 = 0;
    for i in 0..n
        invariant
            n == v@.len(),
            t == total(v@.take(i as int)),
    {
        proof {
            assert(v@.take(i + 1).drop_last() =~= v@.take(i as int));
            lemma_total_bound(v@.take(i as int));
            assert(i * 0xffff_ffff_ffff_ffff + 0xffff_ffff_ffff_ffff <= u128::MAX) by (nonlinear_arith)
                requires
                    i <= u64::MAX;
        }
        t = t + v[i].1 as u128;
    }
    assert(v@.take(n as int) =~= v@);
    t
}

/// The order in which counted entries are reported: by count, then by name.
pub fn count_order(counts: &Vec<(String, u64)>) -> (r: Vec<usize>)
    ensures
        is_sorted_order(count_keys(counts@), r@),
{
    let mut keys: Vec<(u128, String)> = Vec::new();
    let n = counts.len();
    for i in 0..n
        invariant
            n == counts@.len(),
            keys@ == count_keys(counts@.take(i as int)),
    {
        keys.push((counts[i].1 as u128, counts[i].0.clone()));
        assert(count_keys(counts@.take(i + 1)) =~= count_keys(counts@.take(i as int)).push((counts@[i as int].1 as u128, counts@[i as int].0)));
    }
    assert(counts@.take(n as int) =~= counts@);
    sorted_order(&keys)
}

impl Output {
    /// The order in which the counts of top-level types are reported.
    pub fn root_type_order(&self) -> (r: Vec<usize>)
        ensures
            is_sorted_order(count_keys(self.root_type_counts@), r@),
    {
        count_order(&self.root_type_counts)
    }

    /// The order in which enum types are reported: by the total of their variant counts,
    /// then by name.
    pub fn enum_order(&self) -> (r: Vec<usize>)
        ensures
            is_sorted_order(total_keys(self.enum_variant_counts@), r@),
    {
        let mut keys: Vec<(u128, String)> = Vec::new();
        let n = self.enum_variant_counts.len();
        for i in 0..n
            invariant
                n == self.enum_variant_counts@.len(),
                keys@ == total_keys(self.enum_variant_counts@.take(i as int)),
        {
            let e = &self.enum_variant_counts[i];
            keys.push((total_exec(&e.1), e.0.clone()));
            assert(total_keys(self.enum_variant_counts@.take(i + 1)) =~= total_keys(self.enum_variant_counts@.take(i as int)).push(
                (total(e.1@) as u128, e.0)));
        }
        assert(self.enum_variant_counts@.take(n as int) =~= self.enum_variant_counts@);
        sorted_order(&keys)
    }

    /// The order in which the usage is reported: by path text.
    pub fn usage_order(&self) -> (r: Vec<usize>)
        ensures
            is_sorted_order(name_keys(self.usage@), r@),
    {
        let mut keys: Vec<(u128, String)> = Vec::new();
        let n = self.usage.len();
        for i in 0..n
            invariant
                n == self.usage@.len(),
                keys@ == name_keys(self.usage@.take(i as int)),
        {
            keys.push((0, self.usage[i].0.clone()));
            assert(name_keys(self.usage@.take(i + 1)) =~= name_keys(self.usage@.take(i as int)).push((0u128, self.usage@[i as int].0)));
        }
        assert(self.usage@.take(n as int) =~= self.usage@);
        sorted_order(&keys)
    }
}

} // verus!
