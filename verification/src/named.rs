//! Vectors of named entries, used as small maps keyed by name.
use vstd::prelude::*;
use crate::text::str_eq;

verus! {

/// The index of the first entry named `k`, if any.
pub open spec fn index_of_name<V>(s: Seq<(String, V)>, k: Seq<char>) -> Option<int>
    decreases s.len(),
{
    if s.len() == 0 {
        None
    } else if s[0].0@ == k {
        Some(0)
    } else {
        match index_of_name(s.drop_first(), k) {
            Some(i) => Some(i + 1),
            None => None,
        }
    }
}

pub proof fn lemma_index_of_name<V>(s: Seq<(String, V)>, k: Seq<char>)
    ensures
        index_of_name(s, k) matches Some(i) ==> {
            &&& 0 <= i < s.len()
            &&& s[i].0@ == k
            &&& forall|j: int| 0 <= j < i ==> s[j].0@ != k
        },
        index_of_name(s, k) is None ==> forall|j: int| 0 <= j < s.len() ==> s[j].0@ != k,
    decreases s.len(),
{
    if s.len() > 0 {
        lemma_index_of_name(s.drop_first(), k);
        if s[0].0@ != k {
            assert forall|j: int| 1 <= j < s.len() implies s[j] == s.drop_first()[j - 1] by {}
        }
    }
}

proof fn lemma_index_of_name_found<V>(s: Seq<(String, V)>, k: Seq<char>, i: int)
    requires
        0 <= i < s.len(),
        s[i].0@ == k,
        forall|j: int| 0 <= j < i ==> s[j].0@ != k,
    ensures
        index_of_name(s, k) == Some(i),
    decreases s.len(),
{
    if i > 0 {
        lemma_index_of_name_found(s.drop_first(), k, i - 1);
    }
}

proof fn lemma_index_of_name_absent<V>(s: Seq<(String, V)>, k: Seq<char>)
    requires
        forall|j: int| 0 <= j < s.len() ==> s[j].0@ != k,
    ensures
        index_of_name(s, k) is None,
    decreases s.len(),
{
    if s.len() > 0 {
        lemma_index_of_name_absent(s.drop_first(), k);
    }
}

/// The index of the first entry named `k`.
pub fn position_of_name<V>(v: &Vec<(String, V)>, k: &str) -> (r: Option<usize>)
    ensures
        match index_of_name(v@, k@) {
            Some(i) => r == Some(i as usize),
            None => r is None,
        },
        r matches Some(i) ==> index_of_name(v@, k@) == Some(i as int) && i < v@.len(),
{
    let n = v.len();
    for i in 0..n
        invariant
            n == v@.len(),
            forall|j: int| 0 <= j < i ==> v@[j].0@ != k@,
    {
        if str_eq(v[i].0.as_str(), k) {
            proof {
                lemma_index_of_name_found(v@, k@, i as int);
            }
            return Some(i);
        }
    }
    proof {
        lemma_index_of_name_absent(v@, k@);
    }
    None
}

/// `new` is `old` with `val` entered under the name `k`: the value of the first entry
/// named `k` replaced (keeping its name), or a new entry appended.
pub open spec fn named_inserted<V>(old: Seq<(String, V)>, new: Seq<(String, V)>, k: Seq<char>, val: V) -> bool {
    match index_of_name(old, k) {
        Some(i) => new == old.update(i, (old[i].0, val)),
        None => {
            &&& new.len() == old.len() + 1
            &&& new.drop_last() == old
            &&& new.last().0@ == k
            &&& new.last().1 == val
        },
    }
}

/// No name occurs twice among the entries.
pub open spec fn names_distinct<V>(s: Seq<(String, V)>) -> bool {
    forall|i: int, j: int| 0 <= i < j < s.len() ==> #[trigger] s[i].0@ != #[trigger] s[j].0@
}

/// Entering a value under a name keeps the names distinct.
pub proof fn lemma_inserted_distinct<V>(old: Seq<(String, V)>, new: Seq<(String, V)>, k: Seq<char>, val: V)
    requires
        named_inserted(old, new, k, val),
        names_distinct(old),
    ensures
        names_distinct(new),
{
    lemma_index_of_name(old, k);
    match index_of_name(old, k) {
        Some(i) => {
            assert forall|a: int, b: int| 0 <= a < b < new.len() implies #[trigger] new[a].0@ != #[trigger] new[b].0@ by {
                assert(new[a].0 == old[a].0 && new[b].0 == old[b].0);
            }
        },
        None => {
            assert forall|a: int, b: int| 0 <= a < b < new.len() implies #[trigger] new[a].0@ != #[trigger] new[b].0@ by {
                assert(new[a] == new.drop_last()[a]);
                if b < new.len() - 1 {
                    assert(new[b] == new.drop_last()[b]);
                }
            }
        },
    }
}

/// Enters `val` under the name `k`, as a map insertion does.
pub fn insert_named<V>(v: &mut Vec<(String, V)>, k: String, val: V)
    ensures
        named_inserted(old(v)@, final(v)@, k@, val),
        names_distinct(old(v)@) ==> names_distinct(final(v)@),
{
    proof {
        lemma_index_of_name(v@, k@);
    }
    match position_of_name(v, k.as_str()) {
        Some(i) => {
            let ghost old_v = v@;
            let (name, _) = v.remove(i);
            v.insert(i, (name, val));
            assert(v@ =~= old_v.update(i as int, (old_v[i as int].0, val)));
            assert(index_of_name(old_v, k@) == Some(i as int));
            assert(named_inserted(old_v, v@, k@, val));
            proof {
                if names_distinct(old_v) {
                    lemma_inserted_distinct(old_v, v@, k@, val);
                }
            }
        },
        None => {
            let ghost old_v = v@;
            v.push((k, val));
            assert(v@.drop_last() =~= old_v);
            assert(named_inserted(old_v, v@, k@, val));
            proof {
                if names_distinct(old_v) {
                    lemma_inserted_distinct(old_v, v@, k@, val);
                }
            }
        },
    }
}

/// The map that a vector of named entries stands for: each name to the value of its first
/// entry.
pub open spec fn named_map<V>(s: Seq<(String, V)>) -> Map<Seq<char>, V>
    decreases s.len(),
{
    if s.len() == 0 {
        Map::empty()
    } else {
        named_map(s.drop_first()).insert(s[0].0@, s[0].1)
    }
}

pub proof fn lemma_named_map<V>(s: Seq<(String, V)>, k: Seq<char>)
    ensures
        named_map(s).contains_key(k) == index_of_name(s, k) is Some,
        index_of_name(s, k) matches Some(i) ==> named_map(s)[k] == s[i].1,
    decreases s.len(),
{
    if s.len() > 0 {
        lemma_named_map(s.drop_first(), k);
        lemma_index_of_name(s.drop_first(), k);
        if s[0].0@ != k {
            match index_of_name(s.drop_first(), k) {
                Some(j) => {
                    assert(s.drop_first()[j] == s[j + 1]);
                },
                None => {},
            }
        }
    }
}

pub proof fn lemma_named_map_update<V>(s: Seq<(String, V)>, k: Seq<char>, i: int, val: V)
    requires
        index_of_name(s, k) == Some(i),
    ensures
        named_map(s.update(i, (s[i].0, val))) =~= named_map(s).insert(k, val),
    decreases s.len(),
{
    lemma_index_of_name(s, k);
    let t = s.update(i, (s[i].0, val));
    if i == 0 {
        assert(t.drop_first() =~= s.drop_first());
    } else {
        assert(t.drop_first() =~= s.drop_first().update(i - 1, (s[i].0, val)));
        assert(s.drop_first()[i - 1] == s[i]);
        lemma_named_map_update(s.drop_first(), k, i - 1, val);
    }
}

proof fn lemma_named_map_push<V>(s: Seq<(String, V)>, e: (String, V))
    requires
        index_of_name(s, e.0@) is None,
    ensures
        named_map(s.push(e)) =~= named_map(s).insert(e.0@, e.1),
    decreases s.len(),
{
    lemma_index_of_name(s, e.0@);
    if s.len() == 0 {
        assert(s.push(e).drop_first() =~= Seq::<(String, V)>::empty());
        assert(named_map(s.push(e)) == named_map(s.push(e).drop_first()).insert(s.push(e)[0].0@, s.push(e)[0].1));
    } else {
        assert(s.push(e).drop_first() =~= s.drop_first().push(e));
        assert(s.push(e)[0] == s[0]);
        assert(s[0].0@ != e.0@);
        lemma_index_of_name(s.drop_first(), e.0@);
        match index_of_name(s.drop_first(), e.0@) {
            Some(j) => {
                assert(s.drop_first()[j] == s[j + 1]);
            },
            None => {},
        }
        lemma_named_map_push(s.drop_first(), e);
        let t = s.push(e);
        assert(named_map(t) == named_map(t.drop_first()).insert(t[0].0@, t[0].1));
        assert(named_map(s) == named_map(s.drop_first()).insert(s[0].0@, s[0].1));
        assert(named_map(t) =~= named_map(s).insert(e.0@, e.1));
    }
}

/// Entering `val` under `k` enters it in the map the vector stands for.
pub proof fn lemma_named_inserted_map<V>(old: Seq<(String, V)>, new: Seq<(String, V)>, k: Seq<char>, val: V)
    requires
        named_inserted(old, new, k, val),
    ensures
        named_map(new) == named_map(old).insert(k, val),
{
    match index_of_name(old, k) {
        Some(i) => {
            lemma_named_map_update(old, k, i, val);
        },
        None => {
            assert(new =~= old.push(new.last()));
            lemma_named_map_push(old, new.last());
        },
    }
}

/// The count held under `k`, zero when there is none.
pub open spec fn count_of(m: Map<Seq<char>, u64>, k: Seq<char>) -> u64 {
    if m.contains_key(k) { m[k] } else { 0 }
}

/// `a + b`, or `u64::MAX` when the sum does not fit.
pub open spec fn sat_add(a: u64, b: u64) -> u64 {
    if a + b > u64::MAX { u64::MAX } else { (a + b) as u64 }
}

/// Adds `amount` to the count held under `k` (saturating at `u64::MAX`).
pub fn add_named(v: &mut Vec<(String, u64)>, k: &str, amount: u64)
    ensures
        named_map(final(v)@) == named_map(old(v)@).insert(k@, sat_add(count_of(named_map(old(v)@), k@), amount)),
        names_distinct(old(v)@) ==> names_distinct(final(v)@),
{
    proof {
        lemma_index_of_name(v@, k@);
        lemma_named_map(v@, k@);
    }
    let cur = match position_of_name(v, k) {
        Some(i) => v[i].1,
        None => 0,
    };
    let new_val = if cur > u64::MAX - amount { u64::MAX } else { cur + amount };
    let ghost old_v = v@;
    insert_named(v, crate::text::str_to_string(k), new_val);
    proof {
        lemma_named_inserted_map(old_v, v@, k@, new_val);
    }
}

} // verus!
