//! File paths compared as paths: by their components, as `std::path::Path` compares them on
//! Unix, so that `/lib/a.so`, `/lib//a.so` and `/lib/./a.so/` name the same file.
use vstd::prelude::*;

verus! {

/// The pieces of `p` between slashes, in order, empty ones included: there is always one
/// more piece than there are slashes.
pub open spec fn split_slash(p: Seq<char>) -> Seq<Seq<char>>
    decreases p.len(),
{
    if p.len() == 0 {
        seq![Seq::empty()]
    } else {
        let init = split_slash(p.drop_last());
        if p.last() == '/' {
            init.push(Seq::empty())
        } else {
            init.update(init.len() - 1, init.last().push(p.last()))
        }
    }
}

/// A piece that names something: neither empty nor `.`.
pub open spec fn names_something(c: Seq<char>) -> bool {
    c.len() > 0 && c != seq!['.']
}

/// The pieces of `segs` that name something, in order.
pub open spec fn kept(segs: Seq<Seq<char>>) -> Seq<Seq<char>>
    decreases segs.len(),
{
    if segs.len() == 0 {
        Seq::empty()
    } else {
        let k = kept(segs.drop_last());
        if names_something(segs.last()) {
            k.push(segs.last())
        } else {
            k
        }
    }
}

/// What a path is compared by: whether it starts at the root (`/`), whether it starts with
/// a `.` standing alone (a relative path that says so), and its other components, with
/// empty ones (from repeated or trailing slashes) and `.` left out.
pub open spec fn path_key(p: Seq<char>) -> (bool, bool, Seq<Seq<char>>) {
    let root = p.len() > 0 && p[0] == '/';
    let cur = p.len() > 0 && p[0] == '.' && (p.len() == 1 || p[1] == '/');
    (root, cur, kept(split_slash(p)))
}

/// `a` and `b` name the same file.
pub open spec fn same_file_path(a: Seq<char>, b: Seq<char>) -> bool {
    path_key(a) == path_key(b)
}

proof fn lemma_split_step(p: Seq<char>, i: int)
    requires
        0 <= i < p.len(),
    ensures
        split_slash(p.take(i + 1)) == if p[i] == '/' {
            split_slash(p.take(i)).push(Seq::empty())
        } else {
            split_slash(p.take(i)).update(split_slash(p.take(i)).len() - 1, split_slash(p.take(i)).last().push(p[i]))
        },
        split_slash(p.take(i)).len() > 0,
{
    assert(p.take(i + 1).drop_last() =~= p.take(i));
    lemma_split_nonempty(p.take(i));
}

proof fn lemma_split_nonempty(p: Seq<char>)
    ensures
        split_slash(p).len() > 0,
    decreases p.len(),
{
    if p.len() > 0 {
        lemma_split_nonempty(p.drop_last());
    }
}

/// The components of `s` that name something, each as its characters.
fn kept_components(s: &str) -> (r: Vec<Vec<char>>)
    ensures
        r@.map_values(|v: Vec<char>| v@) == kept(split_slash(s@)),
{
    let n = s.unicode_len();
    let mut comps: Vec<Vec<char>> = Vec::new();
    let mut cur: Vec<char> = Vec::new();
    let mut i: usize = 0;
    assert(s@.take(0) =~= Seq::<char>::empty());
    while i < n
        invariant
            n == s@.len(),
            i <= n,
            split_slash(s@.take(i as int)).len() > 0,
            comps@.map_values(|v: Vec<char>| v@) == kept(split_slash(s@.take(i as int)).drop_last()),
            cur@ == split_slash(s@.take(i as int)).last(),
        decreases n - i,
    {
        let c = s.get_char(i);
        proof {
            lemma_split_step(s@, i as int);
        }
        let ghost segs = split_slash(s@.take(i as int));
        if c == '/' {
            let ghost before = comps@.map_values(|v: Vec<char>| v@);
            let piece = cur;
            cur = Vec::new();
            if piece.len() > 0 && !(piece.len() == 1 && piece[0] == '.') {
                assert(names_something(piece@)) by {
                    if piece@ == seq!['.'] {
                        assert(piece@.len() == 1);
                    }
                }
                comps.push(piece);
                assert(comps@.map_values(|v: Vec<char>| v@) =~= before.push(piece@));
            } else {
                assert(!names_something(piece@)) by {
                    if piece@.len() == 1 && piece@[0] == '.' {
                        assert(piece@ =~= seq!['.']);
                    }
                }
            }
            assert(split_slash(s@.take(i + 1)).drop_last() =~= segs);
            assert(kept(segs) == kept(segs.drop_last()) || kept(segs) == kept(segs.drop_last()).push(segs.last()));
        } else {
            cur.push(c);
            assert(split_slash(s@.take(i + 1)).drop_last() =~= segs.drop_last());
        }
        i = i + 1;
    }
    assert(s@.take(n as int) =~= s@);
    let ghost segs = split_slash(s@);
    let ghost before = comps@.map_values(|v: Vec<char>| v@);
    if cur.len() > 0 && !(cur.len() == 1 && cur[0] == '.') {
        assert(names_something(cur@)) by {
            if cur@ == seq!['.'] {
                assert(cur@.len() == 1);
            }
        }
        comps.push(cur);
        assert(comps@.map_values(|v: Vec<char>| v@) =~= before.push(segs.last()));
    } else {
        assert(!names_something(cur@)) by {
            if cur@.len() == 1 && cur@[0] == '.' {
                assert(cur@ =~= seq!['.']);
            }
        }
    }
    comps
}

/// `a` and `b` hold the same characters.
fn chars_equal(a: &Vec<char>, b: &Vec<char>) -> (r: bool)
    ensures
        r == (a@ == b@),
{
    if a.len() != b.len() {
        return false;
    }
    let n = a.len();
    for i in 0..n
        invariant
            n == a@.len(),
            n == b@.len(),
            forall|j: int| 0 <= j < i ==> a@[j] == b@[j],
    {
        if a[i] != b[i] {
            return false;
        }
    }
    assert(a@ =~= b@);
    true
}

/// Whether `s` starts at the root, and whether it starts with a `.` standing alone.
fn path_start(s: &str) -> (r: (bool, bool))
    ensures
        r.0 == path_key(s@).0,
        r.1 == path_key(s@).1,
{
    let n = s.unicode_len();
    if n == 0 {
        return (false, false);
    }
    let c0 = s.get_char(0);
    let cur = c0 == '.' && (n == 1 || s.get_char(1) == '/');
    (c0 == '/', cur)
}

/// Whether the paths `a` and `b` name the same file: the same start and the same
/// components, as `std::path::Path`'s `==` decides on Unix.
pub fn same_path(a: &str, b: &str) -> (r: bool)
    ensures
        r == same_file_path(a@, b@),
{
    let sa = path_start(a);
    let sb = path_start(b);
    if sa.0 != sb.0 || sa.1 != sb.1 {
        return false;
    }
    let ca = kept_components(a);
    let cb = kept_components(b);
    let ghost ka = kept(split_slash(a@));
    let ghost kb = kept(split_slash(b@));
    if ca.len() != cb.len() {
        assert(ka.len() != kb.len());
        return false;
    }
    let n = ca.len();
    for i in 0..n
        invariant
            n == ca@.len(),
            n == cb@.len(),
            ca@.map_values(|v: Vec<char>| v@) == ka,
            cb@.map_values(|v: Vec<char>| v@) == kb,
            ka == kept(split_slash(a@)),
            kb == kept(split_slash(b@)),
            forall|j: int| 0 <= j < i ==> ka[j] == kb[j],
    {
        assert(ka[i as int] == ca@[i as int]@ && kb[i as int] == cb@[i as int]@);
        if !chars_equal(&ca[i], &cb[i]) {
            assert(ka[i as int] != kb[i as int]);
            assert(ka != kb);
            return false;
        }
    }
    assert(ka =~= kb);
    true
}

} // verus!
