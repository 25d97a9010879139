//! Paths through a visited value (fields, parents, indices and dereferences) and the
//! evaluation of a path against the debug information.
use vstd::prelude::*;
use crate::debug_info::{CompositeField, CompositeType, DebugPool, Type, TypeRef};
use crate::text::{push_str, spec_decimal, str_eq, str_to_string, u64_to_decimal};

verus! {

/// One step of a path
#[derive(Debug)]
pub enum PathNode {
    /// A named field of a struct or union
    Field(String),
    /// The parent (base class) with the given index
    Parent(usize),
    /// An element of an array, vector or other container
    Index(usize),
    /// The target of a (maybe smart) pointer
    Deref,
}

/// A step of a path, as a mathematical value
pub enum PathStep {
    Field(Seq<char>),
    Parent(usize),
    Index(usize),
    Deref,
}

impl View for PathNode {
    type V = PathStep;

    open spec fn view(&self) -> PathStep {
        match self {
            PathNode::Field(n) => PathStep::Field(n@),
            PathNode::Parent(i) => PathStep::Parent(*i),
            PathNode::Index(i) => PathStep::Index(*i),
            PathNode::Deref => PathStep::Deref,
        }
    }
}

/// A path through type visiting: the steps taken from the root value, first step first.
#[derive(Debug)]
pub struct Path {
    pub nodes: Vec<PathNode>,
}

impl View for Path {
    type V = Seq<PathStep>;

    open spec fn view(&self) -> Seq<PathStep> {
        Seq::new(self.nodes@.len(), |i: int| self.nodes@[i]@)
    }
}

/// How a step is written when a path is rendered as text.
pub open spec fn step_text(s: PathStep) -> Seq<char> {
    match s {
        PathStep::Field(n) => seq!['.'] + n,
        PathStep::Parent(i) => seq!['#'] + spec_decimal(i as nat),
        PathStep::Index(i) => seq!['['] + spec_decimal(i as nat) + seq![']'],
        PathStep::Deref => seq!['.', '*'],
    }
}

/// The text of a path: the text of its steps, in order (empty for the root).
pub open spec fn path_text(s: Seq<PathStep>) -> Seq<char>
    decreases s.len(),
{
    if s.len() == 0 {
        Seq::empty()
    } else {
        path_text(s.drop_last()) + step_text(s.last())
    }
}

fn copy_node(n: &PathNode) -> (r: PathNode)
    ensures
        r@ == n@,
{
    match n {
        PathNode::Field(s) => PathNode::Field(s.clone()),
        PathNode::Parent(i) => PathNode::Parent(*i),
        PathNode::Index(i) => PathNode::Index(*i),
        PathNode::Deref => PathNode::Deref,
    }
}

impl Path {
    /// The empty path
    pub fn root() -> (r: Path)
        ensures
            r@ == Seq::<PathStep>::empty(),
    {
        let r = Path { nodes: Vec::new() };
        assert(r@ =~= Seq::<PathStep>::empty());
        r
    }

    /// The path made of the first `n` steps of this one.
    fn take_steps(&self, n: usize) -> (r: Path)
        requires
            n <= self@.len(),
        ensures
            r@ == self@.take(n as int),
    {
        let mut nodes: Vec<PathNode> = Vec::new();
        for i in 0..n
            invariant
                n <= self.nodes@.len(),
                nodes@.len() == i,
                forall|j: int| 0 <= j < i ==> #[trigger] nodes@[j]@ == self.nodes@[j]@,
        {
            nodes.push(copy_node(&self.nodes[i]));
        }
        let r = Path { nodes };
        assert(r@ =~= self@.take(n as int));
        r
    }

    fn add(&self, node: PathNode) -> (r: Path)
        ensures
            r@ == self@.push(node@),
    {
        let mut r = self.take_steps(self.nodes.len());
        assert(self@.take(self@.len() as int) =~= self@);
        r.nodes.push(node);
        assert(r@ =~= self@.push(node@));
        r
    }

    /// The number of steps
    pub fn len(&self) -> (r: usize)
        ensures
            r == self@.len(),
    {
        self.nodes.len()
    }

    /// The path without its last step, when that leaves at least one step.
    pub fn get_parent(&self) -> (r: Option<Path>)
        ensures
            match r {
                Some(p) => self@.len() >= 2 && p@ == self@.drop_last(),
                None => self@.len() < 2,
            },
    {
        let n = self.nodes.len();
        if n >= 2 {
            let p = self.take_steps(n - 1);
            assert(self@.take(n - 1) =~= self@.drop_last());
            Some(p)
        } else {
            None
        }
    }

    /// The first `len` steps of the path (the whole path when it is shorter). A non-empty
    /// path has no prefix of length zero.
    pub fn get_prefix(&self, len: usize) -> (r: Path)
        requires
            len >= 1 || self@.len() == 0,
        ensures
            r@ == if self@.len() <= len { self@ } else { self@.take(len as int) },
    {
        let n = self.nodes.len();
        if n <= len {
            let r = self.take_steps(n);
            assert(self@.take(n as int) =~= self@);
            r
        } else {
            self.take_steps(len)
        }
    }

    /// True for the root path and for a path whose last step is a dereference.
    pub fn is_root_or_deref(&self) -> (b: bool)
        ensures
            b == (self@.len() == 0 || self@.last() is Deref),
    {
        let n = self.nodes.len();
        if n == 0 {
            true
        } else {
            match self.nodes[n - 1] {
                PathNode::Deref => true,
                _ => false,
            }
        }
    }

    /// Indexing of an array/vector or pointer
    pub fn index(&self, index: usize) -> (r: Path)
        ensures
            r@ == self@.push(PathStep::Index(index)),
    {
        self.add(PathNode::Index(index))
    }

    /// Parent of a class
    pub fn parent(&self, index: usize) -> (r: Path)
        ensures
            r@ == self@.push(PathStep::Parent(index)),
    {
        self.add(PathNode::Parent(index))
    }

    /// Type field
    pub fn field(&self, name: &str) -> (r: Path)
        ensures
            r@ == self@.push(PathStep::Field(name@)),
    {
        self.add(PathNode::Field(str_to_string(name)))
    }

    /// Dereference a (maybe smart) pointer
    pub fn deref(&self) -> (r: Path)
        ensures
            r@ == self@.push(PathStep::Deref),
    {
        self.add(PathNode::Deref)
    }

    /// The path as text: `.name` for a field, `#i` for a parent, `[i]` for an index and
    /// `.*` for a dereference.
    pub fn to_string(&self) -> (r: String)
        ensures
            r@ == path_text(self@),
    {
        let mut s = String::new();
        let n = self.nodes.len();
        for i in 0..n
            invariant
                n == self@.len(),
                s@ == path_text(self@.take(i as int)),
        {
            assert(self@.take(i + 1).drop_last() =~= self@.take(i as int));
            match &self.nodes[i] {
                PathNode::Field(name) => {
                    proof { reveal_strlit("."); }
                    push_str(&mut s, ".");
                    push_str(&mut s, name.as_str());
                },
                PathNode::Parent(idx) => {
                    proof { reveal_strlit("#"); }
                    push_str(&mut s, "#");
                    let d = u64_to_decimal(*idx as u64);
                    push_str(&mut s, d.as_str());
                },
                PathNode::Index(idx) => {
                    proof { reveal_strlit("["); reveal_strlit("]"); }
                    push_str(&mut s, "[");
                    let d = u64_to_decimal(*idx as u64);
                    push_str(&mut s, d.as_str());
                    push_str(&mut s, "]");
                },
                PathNode::Deref => {
                    proof { reveal_strlit(".*"); }
                    push_str(&mut s, ".*");
                },
            }
            assert(s@ =~= path_text(self@.take(i + 1)));
        }
        assert(self@.take(n as int) =~= self@);
        s
    }
}

// ---------------------------------------------------------------------------
// Evaluating paths

/// `t` with aliases followed, at most `fuel` of them; `None` when an alias names an
/// unfilled slot or the chain is longer than `fuel`.
pub open spec fn resolve_alias(p: DebugPool, t: Type, fuel: nat) -> Option<Type>
    decreases fuel,
{
    match t {
        Type::Alias(tr) => if fuel == 0 {
            None
        } else {
            match p.spec_type(tr) {
                Some(t2) => resolve_alias(p, t2, (fuel - 1) as nat),
                None => None,
            }
        },
        _ => Some(t),
    }
}

/// The alias chain of `t` resolved: no acyclic chain in the pool is longer than the
/// type table.
pub open spec fn resolved(p: DebugPool, t: Type) -> Option<Type> {
    resolve_alias(p, t, p.types@.len())
}

/// Undo a chain of type aliases (e.g. typedefs); `None` when the chain meets an unfilled
/// slot or loops.
pub fn resolve_alias_chain<'a>(debug: &'a DebugPool, ty: &'a Type) -> (r: Option<&'a Type>)
    ensures
        match resolved(*debug, *ty) {
            Some(t) => r matches Some(x) && *x == t,
            None => r is None,
        },
{
    let mut cur = ty;
    let mut fuel = debug.types.len();
    loop
        invariant
            resolve_alias(*debug, *cur, fuel as nat) == resolved(*debug, *ty),
        decreases fuel,
    {
        match cur {
            Type::Alias(tr) => {
                if fuel == 0 {
                    return None;
                }
                match debug.try_get_type(tr) {
                    Some(t2) => {
                        cur = t2;
                        fuel = fuel - 1;
                    },
                    None => {
                        return None;
                    },
                }
            },
            _ => {
                return Some(cur);
            },
        }
    }
}

/// The index of the first field named `name`.
pub open spec fn first_field(fs: Seq<CompositeField>, name: Seq<char>) -> Option<int>
    decreases fs.len(),
{
    if fs.len() == 0 {
        None
    } else if fs[0].name@ == name {
        Some(0)
    } else {
        match first_field(fs.drop_first(), name) {
            Some(i) => Some(i + 1),
            None => None,
        }
    }
}

proof fn lemma_first_field(fs: Seq<CompositeField>, name: Seq<char>)
    ensures
        first_field(fs, name) matches Some(i) ==> 0 <= i < fs.len() && fs[i].name@ == name
            && forall|j: int| 0 <= j < i ==> fs[j].name@ != name,
        first_field(fs, name) is None ==> forall|j: int| 0 <= j < fs.len() ==> fs[j].name@ != name,
    decreases fs.len(),
{
    if fs.len() > 0 {
        lemma_first_field(fs.drop_first(), name);
        assert forall|j: int| 1 <= j < fs.len() implies fs[j] == fs.drop_first()[j - 1] by {}
    }
}

proof fn lemma_first_field_found(fs: Seq<CompositeField>, name: Seq<char>, i: int)
    requires
        0 <= i < fs.len(),
        fs[i].name@ == name,
        forall|j: int| 0 <= j < i ==> fs[j].name@ != name,
    ensures
        first_field(fs, name) == Some(i),
    decreases fs.len(),
{
    if i > 0 {
        lemma_first_field_found(fs.drop_first(), name, i - 1);
    }
}

proof fn lemma_first_field_absent(fs: Seq<CompositeField>, name: Seq<char>)
    requires
        forall|j: int| 0 <= j < fs.len() ==> fs[j].name@ != name,
    ensures
        first_field(fs, name) is None,
    decreases fs.len(),
{
    if fs.len() > 0 {
        lemma_first_field_absent(fs.drop_first(), name);
    }
}

/// The index of the first field of `fs` named `name`.
pub fn find_field(fs: &[CompositeField], name: &str) -> (r: Option<usize>)
    ensures
        match first_field(fs@, name@) {
            Some(i) => r == Some(i as usize),
            None => r is None,
        },
{
    let n = fs.len();
    for i in 0..n
        invariant
            n == fs@.len(),
            forall|j: int| 0 <= j < i ==> fs@[j].name@ != name@,
    {
        if str_eq(fs[i].name.as_str(), name) {
            proof {
                lemma_first_field_found(fs@, name@, i as int);
            }
            return Some(i);
        }
    }
    proof {
        lemma_first_field_absent(fs@, name@);
    }
    None
}

/// `base + o`, with `t`, when the sum fits in 64 bits.
pub open spec fn offset_add(base: u64, o: u64, t: TypeRef) -> Option<(u64, TypeRef)> {
    if base + o <= u64::MAX {
        Some(((base + o) as u64, t))
    } else {
        None
    }
}

/// One step of a path taken in a value of type `cur` found at offset `base`: a field of
/// a struct or union, or a parent of a struct.
pub open spec fn walk_step(p: DebugPool, cur: Type, base: u64, step: PathStep) -> Option<(u64, TypeRef)> {
    match resolved(p, cur) {
        Some(Type::Struct(ct)) => match step {
            PathStep::Field(name) => match first_field(ct.fields@, name) {
                Some(i) => offset_add(base, ct.fields@[i].offset, ct.fields@[i].ty),
                None => None,
            },
            PathStep::Parent(i) => if i < ct.parents@.len() {
                offset_add(base, ct.parents@[i as int].0, ct.parents@[i as int].1)
            } else {
                None
            },
            _ => None,
        },
        Some(Type::Union(ct)) => match step {
            PathStep::Field(name) => match first_field(ct.fields@, name) {
                Some(i) => offset_add(base, ct.fields@[i].offset, ct.fields@[i].ty),
                None => None,
            },
            _ => None,
        },
        _ => None,
    }
}

/// The offset and type of the value that `steps` lead to from a value of type `ty`;
/// `None` when a step names nothing (or the root path, which names no field).
pub open spec fn field_walk(p: DebugPool, ty: Type, steps: Seq<PathStep>) -> Option<(u64, TypeRef)>
    decreases steps.len(),
{
    if steps.len() == 0 {
        None
    } else if steps.len() == 1 {
        walk_step(p, ty, 0, steps[0])
    } else {
        match field_walk(p, ty, steps.drop_last()) {
            Some((b, tr)) => match p.spec_type(tr) {
                Some(t) => walk_step(p, t, b, steps.last()),
                None => None,
            },
            None => None,
        }
    }
}

fn field_at(base: u64, f: &CompositeField) -> (r: Option<(u64, TypeRef)>)
    ensures
        r == offset_add(base, f.offset, f.ty),
{
    if f.offset > u64::MAX - base {
        None
    } else {
        Some((base + f.offset, f.ty))
    }
}

fn walk_step_exec(debug: &DebugPool, cur: &Type, base: u64, node: &PathNode) -> (r: Option<(u64, TypeRef)>)
    ensures
        r == walk_step(*debug, *cur, base, node@),
{
    let rt = resolve_alias_chain(debug, cur);
    match rt {
        None => None,
        Some(t) => {
            assert(resolved(*debug, *cur) == Some(*t));
            let fields: &[CompositeField] = match t {
                Type::Struct(ct) => ct.fields.as_slice(),
                Type::Union(ct) => ct.fields.as_slice(),
                _ => {
                    return None;
                },
            };
            match node {
                PathNode::Field(name) => {
                    proof { lemma_first_field(fields@, name@); }
                    match find_field(fields, name.as_str()) {
                        Some(i) => field_at(base, &fields[i]),
                        None => None,
                    }
                },
                PathNode::Parent(i) => {
                    match t {
                        Type::Struct(ct) => {
                            if *i < ct.parents.len() {
                                let (o, tr) = ct.parents[*i];
                                if o > u64::MAX - base {
                                    None
                                } else {
                                    Some((base + o, tr))
                                }
                            } else {
                                None
                            }
                        },
                        _ => None,
                    }
                },
                _ => None,
            }
        },
    }
}

/// Get the offset and type of a named field (evaluating a path). Where the path does not
/// name a field of `ty` (an empty path, a missing field or parent, a step into a type
/// that has no fields) the result is `None`: callers treat such a type as not laid out
/// as expected and stop with an error rather than abort.
pub fn get_field(debug: &DebugPool, ty: &Type, path: &Path) -> (r: Option<(u64, TypeRef)>)
    ensures
        r == field_walk(*debug, *ty, path@),
{
    let n = path.nodes.len();
    if n == 0 {
        return None;
    }
    let mut acc = walk_step_exec(debug, ty, 0, &path.nodes[0]);
    let mut i: usize = 1;
    assert(path@.take(1).drop_last() =~= Seq::<PathStep>::empty());
    while i < n
        invariant
            n == path@.len(),
            n == path.nodes@.len(),
            1 <= i <= n,
            acc == field_walk(*debug, *ty, path@.take(i as int)),
        decreases n - i,
    {
        assert(path@.take(i + 1).drop_last() =~= path@.take(i as int));
        acc = match acc {
            None => None,
            Some((b, tr)) => match debug.try_get_type(&tr) {
                Some(t) => walk_step_exec(debug, t, b, &path.nodes[i]),
                None => None,
            },
        };
        i = i + 1;
    }
    assert(path@.take(n as int) =~= path@);
    acc
}

/// The text of a path's prefix begins the text of the path: usage counted under a path is
/// counted under a text that its own text extends.
pub proof fn law_prefix_text(p: Seq<PathStep>, k: int)
    requires
        0 <= k <= p.len(),
    ensures
        crate::text::spec_starts_with(path_text(p), path_text(p.take(k))),
    decreases p.len(),
{
    if k == p.len() {
        assert(p.take(k) =~= p);
        assert(path_text(p).take(path_text(p).len() as int) =~= path_text(p));
    } else {
        law_prefix_text(p.drop_last(), k);
        assert(p.drop_last().take(k) =~= p.take(k));
        let a = path_text(p.drop_last());
        let t = path_text(p.take(k));
        assert(path_text(p) == a + step_text(p.last()));
        assert((a + step_text(p.last())).take(t.len() as int) =~= a.take(t.len() as int));
    }
}

/// Resolving an alias chain never ends on an alias.
pub proof fn law_resolved_not_alias(p: DebugPool, t: Type, fuel: nat)
    ensures
        resolve_alias(p, t, fuel) matches Some(r) ==> !(r is Alias),
    decreases fuel,
{
    match t {
        Type::Alias(tr) => {
            if fuel > 0 {
                match p.spec_type(tr) {
                    Some(t2) => law_resolved_not_alias(p, t2, (fuel - 1) as nat),
                    None => {},
                }
            }
        },
        _ => {},
    }
}

/// Resolving a type that is not an alias gives it back.
pub proof fn law_resolved_identity(p: DebugPool, t: Type)
    requires
        !(t is Alias),
    ensures
        resolved(p, t) == Some(t),
{
}


/// Resolving a resolved type gives it back: resolution is idempotent.
pub proof fn law_resolved_idempotent(p: DebugPool, t: Type)
    ensures
        resolved(p, t) matches Some(r) ==> resolved(p, r) == Some(r),
{
    law_resolved_not_alias(p, t, p.types@.len());
}

/// The offset of a path is the offset of its prefix plus that of its last step: with the
/// prefix `steps` found at offset `b` with type `tr` (filled as `t`), the path one step
/// longer is that step taken in `t` at `b`.
pub proof fn law_field_walk_extends(p: DebugPool, ty: Type, steps: Seq<PathStep>, s: PathStep)
    requires
        steps.len() >= 1,
    ensures
        field_walk(p, ty, steps.push(s)) == match field_walk(p, ty, steps) {
            Some((b, tr)) => match p.spec_type(tr) {
                Some(t) => walk_step(p, t, b, s),
                None => None,
            },
            None => None,
        },
{
    assert(steps.push(s).drop_last() =~= steps);
}

/// A field step adds the field's offset: where the prefix `steps` is found at offset `b`
/// with a struct (or union) type `ct` (after its aliases), and `f` is the first field of
/// `ct` named `name`, the path `steps` then `.name` is found at `b` plus `f`'s offset, with
/// `f`'s type, unless that offset passes the end of the address space.
pub proof fn law_field_offset(p: DebugPool, ty: Type, steps: Seq<PathStep>, name: Seq<char>, b: u64, tr: TypeRef, t: Type,
    ct: CompositeType, i: int)
    requires
        steps.len() >= 1,
        field_walk(p, ty, steps) == Some((b, tr)),
        p.spec_type(tr) == Some(t),
        resolved(p, t) == Some(Type::Struct(ct)) || resolved(p, t) == Some(Type::Union(ct)),
        first_field(ct.fields@, name) == Some(i),
    ensures
        field_walk(p, ty, steps.push(PathStep::Field(name))) == offset_add(b, ct.fields@[i].offset, ct.fields@[i].ty),
{
    law_field_walk_extends(p, ty, steps, PathStep::Field(name));
}

/// A parent step adds the parent's offset: where the prefix `steps` is found at offset `b`
/// with a struct type `ct` (after its aliases) and `i` names one of its parents, the path
/// `steps` then parent `i` is found at `b` plus that parent's offset, with its type, unless
/// that offset passes the end of the address space.
pub proof fn law_parent_offset(p: DebugPool, ty: Type, steps: Seq<PathStep>, i: usize, b: u64, tr: TypeRef, t: Type, ct: CompositeType)
    requires
        steps.len() >= 1,
        field_walk(p, ty, steps) == Some((b, tr)),
        p.spec_type(tr) == Some(t),
        resolved(p, t) == Some(Type::Struct(ct)),
        i < ct.parents@.len(),
    ensures
        field_walk(p, ty, steps.push(PathStep::Parent(i))) == offset_add(b, ct.parents@[i as int].0, ct.parents@[i as int].1),
{
    law_field_walk_extends(p, ty, steps, PathStep::Parent(i));
}

/// Aliases are transparent: a path taken in a type is taken as in the type its aliases
/// resolve to (where the chain of aliases ends).
pub proof fn law_field_walk_through_aliases(p: DebugPool, ty: Type, steps: Seq<PathStep>)
    requires
        resolved(p, ty) is Some,
    ensures
        field_walk(p, ty, steps) == field_walk(p, resolved(p, ty)->Some_0, steps),
    decreases steps.len(),
{
    law_resolved_idempotent(p, ty);
    if steps.len() > 1 {
        law_field_walk_through_aliases(p, ty, steps.drop_last());
    }
}


/// A character that starts the text of a path step.
pub open spec fn step_start_char(c: char) -> bool {
    c == '.' || c == '#' || c == '['
}

/// A field name that reads back unambiguously in a path's text: it holds none of the
/// characters that start a step, and it is not `*` (the text of a dereference).
pub open spec fn plain_name(n: Seq<char>) -> bool {
    &&& n != seq!['*']
    &&& forall|i: int| 0 <= i < n.len() ==> !step_start_char(#[trigger] n[i])
}

/// Every field name along the path `p` is plain.
pub open spec fn plain_path(p: Seq<PathStep>) -> bool {
    forall|i: int| 0 <= i < p.len() ==> (#[trigger] p[i] matches PathStep::Field(n) ==> plain_name(n))
}

proof fn lemma_decimal_digits(n: nat)
    ensures
        spec_decimal(n).len() >= 1,
        n >= 10 ==> spec_decimal(n).len() >= 2,
        forall|i: int| 0 <= i < spec_decimal(n).len() ==> !step_start_char(#[trigger] spec_decimal(n)[i])
            && spec_decimal(n)[i] != ']',
    decreases n,
{
    if n >= 10 {
        lemma_decimal_digits(n / 10);
        let d = spec_decimal(n / 10);
        assert forall|i: int| 0 <= i < spec_decimal(n).len() implies !step_start_char(#[trigger] spec_decimal(n)[i])
            && spec_decimal(n)[i] != ']' by {
            if i < d.len() {
                assert(spec_decimal(n)[i] == d[i]);
            }
        }
    }
}

proof fn lemma_digit_char_injective(x: nat, y: nat)
    requires
        x < 10,
        y < 10,
        crate::text::digit_char(x) == crate::text::digit_char(y),
    ensures
        x == y,
{
}

proof fn lemma_decimal_injective(a: nat, b: nat)
    requires
        spec_decimal(a) == spec_decimal(b),
    ensures
        a == b,
    decreases a,
{
    lemma_decimal_digits(a);
    lemma_decimal_digits(b);
    if a < 10 && b < 10 {
        assert(spec_decimal(a)[0] == crate::text::digit_char(a));
        assert(spec_decimal(b)[0] == crate::text::digit_char(b));
        lemma_digit_char_injective(a, b);
    } else if a >= 10 && b >= 10 {
        let da = spec_decimal(a / 10);
        let db = spec_decimal(b / 10);
        assert(spec_decimal(a).drop_last() =~= da);
        assert(spec_decimal(b).drop_last() =~= db);
        lemma_decimal_injective(a / 10, b / 10);
        assert(spec_decimal(a).last() == crate::text::digit_char(a % 10));
        assert(spec_decimal(b).last() == crate::text::digit_char(b % 10));
        lemma_digit_char_injective(a % 10, b % 10);
    }
}

/// The text of a plain step starts with a step's first character and holds no other.
proof fn lemma_step_text_shape(s: PathStep)
    requires
        s matches PathStep::Field(n) ==> plain_name(n),
    ensures
        step_text(s).len() >= 1,
        step_start_char(step_text(s)[0]),
        forall|i: int| 1 <= i < step_text(s).len() ==> !step_start_char(#[trigger] step_text(s)[i]),
{
    match s {
        PathStep::Field(n) => {
            assert forall|i: int| 1 <= i < step_text(s).len() implies !step_start_char(#[trigger] step_text(s)[i]) by {
                assert(step_text(s)[i] == n[i - 1]);
            }
        },
        PathStep::Parent(i) => {
            lemma_decimal_digits(i as nat);
            assert forall|k: int| 1 <= k < step_text(s).len() implies !step_start_char(#[trigger] step_text(s)[k]) by {
                assert(step_text(s)[k] == spec_decimal(i as nat)[k - 1]);
            }
        },
        PathStep::Index(i) => {
            lemma_decimal_digits(i as nat);
            let d = spec_decimal(i as nat);
            assert forall|k: int| 1 <= k < step_text(s).len() implies !step_start_char(#[trigger] step_text(s)[k]) by {
                if k <= d.len() {
                    assert(step_text(s)[k] == d[k - 1]);
                }
            }
        },
        PathStep::Deref => {},
    }
}

/// The character that the text of step `s` starts with.
spec fn step_first(s: PathStep) -> char {
    match s {
        PathStep::Field(_) => '.',
        PathStep::Parent(_) => '#',
        PathStep::Index(_) => '[',
        PathStep::Deref => '.',
    }
}

/// Plain steps with the same text are the same step.
proof fn lemma_step_text_injective(a: PathStep, b: PathStep)
    requires
        a matches PathStep::Field(n) ==> plain_name(n),
        b matches PathStep::Field(n) ==> plain_name(n),
        step_text(a) == step_text(b),
    ensures
        a == b,
{
    let t = step_text(a);
    assert(t[0] == step_first(a));
    assert(step_text(b)[0] == step_first(b));
    match a {
        PathStep::Field(n) => match b {
            PathStep::Field(m) => { assert(n =~= t.drop_first()); assert(m =~= t.drop_first()); },
            PathStep::Deref => { assert(n =~= t.drop_first()); assert(n =~= seq!['*']); },
            _ => {},
        },
        PathStep::Deref => match b {
            PathStep::Field(m) => { assert(m =~= t.drop_first()); assert(m =~= seq!['*']); },
            _ => {},
        },
        PathStep::Parent(i) => match b {
            PathStep::Parent(j) => {
                assert(spec_decimal(i as nat) =~= t.drop_first());
                assert(spec_decimal(j as nat) =~= t.drop_first());
                lemma_decimal_injective(i as nat, j as nat);
            },
            _ => {},
        },
        PathStep::Index(i) => match b {
            PathStep::Index(j) => {
                assert(spec_decimal(i as nat) =~= t.drop_first().drop_last());
                assert(spec_decimal(j as nat) =~= t.drop_first().drop_last());
                lemma_decimal_injective(i as nat, j as nat);
            },
            _ => {},
        },
    }
}

/// Plain paths with the same text are the same path: a path's text is read back step by
/// step, each step starting at the last character that starts a step.
pub proof fn law_plain_text_injective(x: Seq<PathStep>, y: Seq<PathStep>)
    requires
        plain_path(x),
        plain_path(y),
        path_text(x) == path_text(y),
    ensures
        x == y,
    decreases x.len(),
{
    if x.len() == 0 || y.len() == 0 {
        if x.len() > 0 {
            lemma_step_text_shape(x.last());
        }
        if y.len() > 0 {
            lemma_step_text_shape(y.last());
        }
        assert(x =~= y);
    } else {
        let t = path_text(x);
        let (xi, yi) = (x.drop_last(), y.drop_last());
        assert(plain_path(xi)) by {
            assert forall|i: int| 0 <= i < xi.len() implies (#[trigger] xi[i] matches PathStep::Field(n) ==> plain_name(n)) by {
                assert(xi[i] == x[i]);
            }
        }
        assert(plain_path(yi)) by {
            assert forall|i: int| 0 <= i < yi.len() implies (#[trigger] yi[i] matches PathStep::Field(n) ==> plain_name(n)) by {
                assert(yi[i] == y[i]);
            }
        }
        assert(x[x.len() - 1] == x.last());
        assert(y[y.len() - 1] == y.last());
        lemma_step_text_shape(x.last());
        lemma_step_text_shape(y.last());
        let kx = path_text(xi).len() as int;
        let ky = path_text(yi).len() as int;
        let sx = step_text(x.last());
        let sy = step_text(y.last());
        assert(t =~= path_text(xi) + sx);
        assert(path_text(y) =~= path_text(yi) + sy);
        assert(t[kx] == sx[0]);
        assert(t[ky] == sy[0]);
        if kx < ky {
            assert(t[ky] == sx[ky - kx]);
        } else if ky < kx {
            assert(t[kx] == sy[kx - ky]);
        }
        assert(kx == ky);
        assert(path_text(xi) =~= t.take(kx));
        assert(path_text(yi) =~= t.take(ky));
        assert(sx =~= t.skip(kx));
        assert(sy =~= t.skip(ky));
        lemma_step_text_injective(x.last(), y.last());
        law_plain_text_injective(xi, yi);
        assert(x =~= xi.push(x.last()));
        assert(y =~= yi.push(y.last()));
    }
}

} // verus!
