//! Nested scopes of variables.
//!
//! An [`Environment`] holds every scope that a program has opened, each with
//! its own bindings and the scope it is nested in. A scope is named by its
//! index, which stays valid for the life of the environment, so a child scope
//! and a closure can keep referring to the scope they were made in.
//!
//! Reading a variable looks in the given scope and then outward through its
//! parents; declaring binds in the given scope only; updating assigns in the
//! nearest scope that binds the name.
use vstd::prelude::*;
use crate::value::LoxError;

verus! {

/// A scope as the contracts see it: its bindings, and the scope it is nested
/// in, if any.
pub struct ScopeView<T> {
    pub vars: Map<Seq<char>, T>,
    pub parent: Option<nat>,
}

/// The value that `x` has when read from scope `id`: its binding in `id`, or
/// else its value in the parent scope.
pub open spec fn lookup<T>(s: Seq<ScopeView<T>>, id: int, x: Seq<char>) -> Option<T>
    decreases id,
{
    if 0 <= id < s.len() {
        if s[id].vars.contains_key(x) {
            Some(s[id].vars[x])
        } else {
            match s[id].parent {
                Some(p) => if p < id {
                    lookup(s, p as int, x)
                } else {
                    None
                },
                None => None,
            }
        }
    } else {
        None
    }
}

/// The scope whose binding of `x` a read from scope `id` finds.
pub open spec fn owner<T>(s: Seq<ScopeView<T>>, id: int, x: Seq<char>) -> Option<int>
    decreases id,
{
    if 0 <= id < s.len() {
        if s[id].vars.contains_key(x) {
            Some(id)
        } else {
            match s[id].parent {
                Some(p) => if p < id {
                    owner(s, p as int, x)
                } else {
                    None
                },
                None => None,
            }
        }
    } else {
        None
    }
}

/// The scopes after binding `x` to `v` in scope `id`.
pub open spec fn bind<T>(s: Seq<ScopeView<T>>, id: int, x: Seq<char>, v: T) -> Seq<ScopeView<T>> {
    s.update(id, ScopeView { vars: s[id].vars.insert(x, v), parent: s[id].parent })
}

/// The scopes after opening a new, empty scope inside scope `parent`.
pub open spec fn open_child<T>(s: Seq<ScopeView<T>>, parent: nat) -> Seq<ScopeView<T>> {
    s.push(ScopeView { vars: Map::empty(), parent: Some(parent) })
}

/// Scope `q` is `id` or one of the scopes that `id` is nested in.
pub open spec fn encloses<T>(s: Seq<ScopeView<T>>, q: int, id: int) -> bool
    decreases id,
{
    if 0 <= id < s.len() {
        q == id || match s[id].parent {
            Some(p) => p < id && encloses(s, q, p as int),
            None => false,
        }
    } else {
        false
    }
}

/// The error that reports `x` as bound in no enclosing scope.
pub open spec fn not_found<T>(e: LoxError<T>, x: Seq<char>) -> bool {
    e matches LoxError::VariableNotFound(n) && n@ == x
}

/// The binding that an update replaces is the one that a read from the same
/// scope finds: an update fails exactly when the read does, and otherwise
/// returns the value that the read gives. That binding lives in the read
/// scope or in one that it is nested in.
pub proof fn law_owner_is_read_binding<T>(s: Seq<ScopeView<T>>, q: int, x: Seq<char>)
    ensures
        owner(s, q, x) is None <==> lookup(s, q, x) is None,
        owner(s, q, x) matches Some(o) ==> 0 <= o <= q < s.len() && s[o].vars.contains_key(x)
            && lookup(s, q, x) == Some(s[o].vars[x]) && encloses(s, o, q),
    decreases q,
{
    if 0 <= q < s.len() && !s[q].vars.contains_key(x) {
        if let Some(p) = s[q].parent {
            if p < q {
                law_owner_is_read_binding(s, p as int, x);
            }
        }
    }
}

/// A scope that encloses `q` comes no later than `q`.
pub proof fn lemma_encloses_le<T>(s: Seq<ScopeView<T>>, c: int, q: int)
    requires
        encloses(s, c, q),
    ensures
        0 <= c <= q < s.len(),
    decreases q,
{
    if c != q {
        if let Some(p) = s[q].parent {
            lemma_encloses_le(s, c, p as int);
        }
    }
}

/// Reading a variable right after declaring it in the same scope gives the
/// declared value.
pub proof fn law_read_after_declare<T>(s: Seq<ScopeView<T>>, id: int, x: Seq<char>, v: T)
    requires
        0 <= id < s.len(),
    ensures
        lookup(bind(s, id, x, v), id, x) == Some(v),
{
}

/// Binding a name in a scope, by a declaration or by an update, changes no
/// read of another name, from any scope.
pub proof fn law_bind_keeps_other_names<T>(
    s: Seq<ScopeView<T>>,
    id: int,
    x: Seq<char>,
    v: T,
    q: int,
    y: Seq<char>,
)
    requires
        0 <= id < s.len(),
        y != x,
    ensures
        lookup(bind(s, id, x, v), q, y) == lookup(s, q, y),
    decreases q,
{
    let t = bind(s, id, x, v);
    if 0 <= q < s.len() {
        assert(t[q].vars.contains_key(y) == s[q].vars.contains_key(y));
        if !s[q].vars.contains_key(y) {
            if let Some(p) = s[q].parent {
                if p < q {
                    law_bind_keeps_other_names(s, id, x, v, p as int, y);
                }
            }
        } else {
            assert(t[q].vars[y] == s[q].vars[y]);
        }
    }
}

/// Declaring in a scope is not seen from the scopes that do not lie inside
/// it: in particular, a declaration in a child scope shadows the parent's
/// binding only in the child, and the parent still reads its own.
pub proof fn law_declare_unseen_outside<T>(
    s: Seq<ScopeView<T>>,
    c: int,
    x: Seq<char>,
    v: T,
    q: int,
    y: Seq<char>,
)
    requires
        0 <= c < s.len(),
        !encloses(s, c, q),
    ensures
        lookup(bind(s, c, x, v), q, y) == lookup(s, q, y),
    decreases q,
{
    let t = bind(s, c, x, v);
    if 0 <= q < s.len() {
        assert(q != c);
        assert(t[q] == s[q]);
        if !s[q].vars.contains_key(y) {
            if let Some(p) = s[q].parent {
                if p < q {
                    law_declare_unseen_outside(s, c, x, v, p as int, y);
                }
            }
        }
    }
}


/// A declaration in a scope opened after `q` is not seen from `q`: a child
/// that declares a name shadows its parent's binding only for itself.
pub proof fn law_declare_in_later_scope_unseen<T>(
    s: Seq<ScopeView<T>>,
    c: int,
    x: Seq<char>,
    v: T,
    q: int,
    y: Seq<char>,
)
    requires
        0 <= q < c < s.len(),
    ensures
        lookup(bind(s, c, x, v), q, y) == lookup(s, q, y),
{
    if encloses(s, c, q) {
        lemma_encloses_le(s, c, q);
    }
    law_declare_unseen_outside(s, c, x, v, q, y);
}

/// Opening a child scope changes no read from the scopes that were there.
pub proof fn law_child_keeps_reads<T>(s: Seq<ScopeView<T>>, parent: nat, q: int, x: Seq<char>)
    requires
        0 <= q < s.len(),
    ensures
        lookup(open_child(s, parent), q, x) == lookup(s, q, x),
    decreases q,
{
    let t = open_child(s, parent);
    assert(t[q] == s[q]);
    if !s[q].vars.contains_key(x) {
        if let Some(p) = s[q].parent {
            if p < q {
                law_child_keeps_reads(s, parent, p as int, x);
            }
        }
    }
}


/// Closing a scope right after opening it gives back the scopes as they were.
pub proof fn law_close_undoes_open<T>(s: Seq<ScopeView<T>>, parent: nat)
    ensures
        open_child(s, parent).drop_last() == s,
{
    assert(open_child(s, parent).drop_last() =~= s);
}

/// Closing the last scope changes no read from the scopes that remain.
pub proof fn law_close_keeps_reads<T>(s: Seq<ScopeView<T>>, q: int, x: Seq<char>)
    requires
        0 <= q < s.len() - 1,
    ensures
        lookup(s.drop_last(), q, x) == lookup(s, q, x),
    decreases q,
{
    let t = s.drop_last();
    assert(t[q] == s[q]);
    if !s[q].vars.contains_key(x) {
        if let Some(p) = s[q].parent {
            if p < q {
                law_close_keeps_reads(s, p as int, x);
            }
        }
    }
}

/// A new child scope reads every variable as its parent does.
pub proof fn law_child_reads_parent<T>(s: Seq<ScopeView<T>>, parent: nat, x: Seq<char>)
    requires
        parent < s.len(),
    ensures
        lookup(open_child(s, parent), s.len() as int, x) == lookup(s, parent as int, x),
{
    let t = open_child(s, parent);
    assert(!t[s.len() as int].vars.contains_key(x));
    law_child_keeps_reads(s, parent, parent as int, x);
}

/// After an update through scope `id`, every scope whose reads of `x` found
/// the same binding (`id` itself, and for example the parent that declared
/// `x` and its other children) reads the new value.
pub proof fn law_read_after_update<T>(s: Seq<ScopeView<T>>, id: int, q: int, x: Seq<char>, v: T)
    requires
        owner(s, id, x) is Some,
        owner(s, q, x) == owner(s, id, x),
    ensures
        lookup(bind(s, owner(s, id, x)->0, x, v), q, x) == Some(v),
    decreases q,
{
    let o = owner(s, id, x)->0;
    law_owner_is_read_binding(s, q, x);
    let t = bind(s, o, x, v);
    if s[q].vars.contains_key(x) {
        assert(o == q);
    } else {
        assert(o != q);
        assert(t[q] == s[q]);
        let p = s[q].parent->0;
        law_read_after_update(s, id, p as int, x, v);
    }
}

/// The bindings of one scope, held as parallel lists of names and values.
struct Frame<T> {
    names: Vec<String>,
    values: Vec<T>,
    parent: Option<usize>,
}

spec fn frame_has<T>(f: Frame<T>, x: Seq<char>) -> bool {
    exists|i: int| 0 <= i < f.names@.len() && #[trigger] f.names@[i]@ == x
}

spec fn frame_index<T>(f: Frame<T>, x: Seq<char>) -> int {
    choose|i: int| 0 <= i < f.names@.len() && #[trigger] f.names@[i]@ == x
}

spec fn frame_vars<T>(f: Frame<T>) -> Map<Seq<char>, T> {
    Map::new(|x: Seq<char>| frame_has(f, x), |x: Seq<char>| f.values@[frame_index(f, x)])
}

spec fn frame_view<T>(f: Frame<T>) -> ScopeView<T> {
    ScopeView {
        vars: frame_vars(f),
        parent: match f.parent {
            Some(p) => Some(p as nat),
            None => None,
        },
    }
}

/// A frame at position `k`: names and values line up, no name is bound
/// twice, and the parent comes earlier.
spec fn frame_wf<T>(f: Frame<T>, k: int) -> bool {
    &&& f.names@.len() == f.values@.len()
    &&& forall|i: int, j: int|
        0 <= i < j < f.names@.len() ==> #[trigger] f.names@[i]@ != #[trigger] f.names@[j]@
    &&& match f.parent {
        Some(p) => p < k,
        None => true,
    }
}

/// Every scope of a program, each named by its index.
pub struct Environment<T> {
    frames: Vec<Frame<T>>,
}

impl<T> View for Environment<T> {
    type V = Seq<ScopeView<T>>;

    closed spec fn view(&self) -> Seq<ScopeView<T>> {
        Seq::new(self.frames@.len(), |k: int| frame_view(self.frames@[k]))
    }
}

/// The binding that a frame holds at index `i` is its binding of that name.
proof fn lemma_frame_get<T>(f: Frame<T>, k: int, i: int)
    requires
        frame_wf(f, k),
        0 <= i < f.names@.len(),
    ensures
        frame_vars(f).contains_key(f.names@[i]@),
        frame_vars(f)[f.names@[i]@] == f.values@[i],
{
    let x = f.names@[i]@;
    assert(frame_has(f, x));
    let j = frame_index(f, x);
    if j < i {
        assert(f.names@[j]@ != f.names@[i]@);
    } else if i < j {
        assert(f.names@[i]@ != f.names@[j]@);
    }
}


/// Two indices at which a frame binds the same name are the same index.
proof fn lemma_frame_unique<T>(f: Frame<T>, k: int, i: int, j: int)
    requires
        frame_wf(f, k),
        0 <= i < f.names@.len(),
        0 <= j < f.names@.len(),
        f.names@[i]@ == f.names@[j]@,
    ensures
        i == j,
{
    if i < j {
        assert(f.names@[i]@ != f.names@[j]@);
    } else if j < i {
        assert(f.names@[j]@ != f.names@[i]@);
    }
}

/// Replacing the value at index `i` rebinds the name at `i` and keeps the
/// frame well formed.
proof fn lemma_frame_set<T>(f: Frame<T>, g: Frame<T>, k: int, i: int, v: T)
    requires
        frame_wf(f, k),
        0 <= i < f.names@.len(),
        g.names@ == f.names@,
        g.values@ == f.values@.update(i, v),
        g.parent == f.parent,
    ensures
        frame_wf(g, k),
        frame_vars(g) == frame_vars(f).insert(f.names@[i]@, v),
{
    let x = f.names@[i]@;
    assert forall|y: Seq<char>| #[trigger] frame_has(g, y) == frame_has(f, y) by {
        if frame_has(g, y) {
            let j = choose|j: int| 0 <= j < g.names@.len() && #[trigger] g.names@[j]@ == y;
            assert(f.names@[j]@ == y);
        }
        if frame_has(f, y) {
            let j = choose|j: int| 0 <= j < f.names@.len() && #[trigger] f.names@[j]@ == y;
            assert(g.names@[j]@ == y);
        }
    }
    assert forall|y: Seq<char>| frame_has(g, y) implies #[trigger] g.values@[frame_index(g, y)]
        == frame_vars(f).insert(x, v)[y] by {
        let j = frame_index(g, y);
        assert(f.names@[j]@ == y);
        if y == x {
            lemma_frame_unique(f, k, i, j);
        } else {
            let j2 = frame_index(f, y);
            lemma_frame_unique(f, k, j, j2);
        }
    }
    assert(frame_vars(g) =~= frame_vars(f).insert(x, v));
}

/// Appending a name that the frame does not bind binds it, and keeps the
/// frame well formed.
proof fn lemma_frame_push<T>(f: Frame<T>, g: Frame<T>, k: int, x: String, v: T)
    requires
        frame_wf(f, k),
        !frame_has(f, x@),
        g.names@ == f.names@.push(x),
        g.values@ == f.values@.push(v),
        g.parent == f.parent,
    ensures
        frame_wf(g, k),
        frame_vars(g) == frame_vars(f).insert(x@, v),
{
    let n = f.names@.len() as int;
    assert forall|i: int, j: int| 0 <= i < j < g.names@.len() implies #[trigger] g.names@[i]@
        != #[trigger] g.names@[j]@ by {
        if j == n {
            if g.names@[i]@ == x@ {
                assert(f.names@[i]@ == x@);
            }
        } else {
            assert(f.names@[i]@ != f.names@[j]@);
        }
    }
    assert(g.names@[n]@ == x@);
    assert forall|y: Seq<char>| #[trigger] frame_has(g, y) == (frame_has(f, y) || y == x@) by {
        if frame_has(g, y) {
            let j = choose|j: int| 0 <= j < g.names@.len() && #[trigger] g.names@[j]@ == y;
            if j < n {
                assert(f.names@[j]@ == y);
            }
        }
        if frame_has(f, y) {
            let j = choose|j: int| 0 <= j < f.names@.len() && #[trigger] f.names@[j]@ == y;
            assert(g.names@[j]@ == y);
        }
    }
    assert forall|y: Seq<char>| frame_has(g, y) implies #[trigger] g.values@[frame_index(g, y)]
        == frame_vars(f).insert(x@, v)[y] by {
        let j = frame_index(g, y);
        if y == x@ {
            lemma_frame_unique(g, k, j, n);
        } else {
            assert(j < n);
            assert(f.names@[j]@ == y);
            let j2 = frame_index(f, y);
            lemma_frame_unique(f, k, j, j2);
        }
    }
    assert(frame_vars(g) =~= frame_vars(f).insert(x@, v));
}

impl<T> Environment<T> {
    /// The environment's invariant: there is a root scope, and every scope is
    /// well formed.
    #[verifier::type_invariant]
    spec fn wf(self) -> bool {
        &&& self.frames@.len() > 0
        &&& forall|k: int| 0 <= k < self.frames@.len() ==> frame_wf(#[trigger] self.frames@[k], k)
    }

    /// A stand-in for the scopes while they are being changed: one empty root.
    fn stand_in() -> (v: Vec<Frame<T>>)
        ensures
            v@.len() == 1,
            frame_wf(v@[0], 0),
    {
        vec![Frame { names: Vec::new(), values: Vec::new(), parent: None }]
    }

    /// Creates an environment with one scope, the root (index 0), which has
    /// no bindings and no parent.
    pub fn new() -> (env: Self)
        ensures
            env@ == seq![ScopeView::<T> { vars: Map::empty(), parent: None }],
    {
        let root = Frame { names: Vec::new(), values: Vec::new(), parent: None };
        let env = Environment { frames: vec![root] };
        assert(frame_vars(env.frames@[0]) =~= Map::empty());
        assert(env@ =~= seq![ScopeView::<T> { vars: Map::empty(), parent: None }]);
        env
    }

    /// The root scope, which [`Environment::new`] creates and in which every
    /// later scope is nested.
    pub fn root(&self) -> (id: usize)
        ensures
            id == 0,
            id < self@.len(),
    {
        proof {
            use_type_invariant(self);
        }
        0
    }

    /// Opens a new, empty scope nested in `parent` and returns its index.
    /// Reads from the new scope that find nothing in it go on in `parent`.
    pub fn child_of(&mut self, parent: usize) -> (id: usize)
        requires
            parent < old(self)@.len(),
        ensures
            id == old(self)@.len(),
            final(self)@ == open_child(old(self)@, parent as nat),
    {
        proof {
            use_type_invariant(&*self);
        }
        let id = self.frames.len();
        let frame = Frame { names: Vec::new(), values: Vec::new(), parent: Some(parent) };
        assert(frame_vars(frame) =~= Map::empty());
        let mut frames = Self::stand_in();
        std::mem::swap(&mut self.frames, &mut frames);
        frames.push(frame);
        self.frames = frames;
        assert(self@ =~= open_child(old(self)@, parent as nat));
        id
    }



    /// The number of scopes open; every index below it names a scope.
    pub fn scope_count(&self) -> (n: usize)
        ensures
            n == self@.len(),
    {
        self.frames.len()
    }

    /// Closes the scope opened last, releasing its bindings. The root cannot
    /// be closed. No other scope is nested in the one closed, and reads from
    /// every other scope are unchanged (see [`law_close_keeps_reads`]).
    pub fn close_scope(&mut self, id: usize)
        requires
            0 < id,
            id + 1 == old(self)@.len(),
        ensures
            final(self)@ == old(self)@.drop_last(),
    {
        proof {
            use_type_invariant(&*self);
        }
        let mut frames = Self::stand_in();
        std::mem::swap(&mut self.frames, &mut frames);
        let ghost before = frames@;
        frames.pop();
        assert(frames@ =~= before.drop_last());
        self.frames = frames;
        assert(self@ =~= old(self)@.drop_last());
    }

    /// The index in frame `k` at which `x` is bound.
    fn find(&self, k: usize, x: &String) -> (r: Option<usize>)
        requires
            k < self@.len(),
        ensures
            match r {
                Some(i) => i < self.frames@[k as int].names@.len()
                    && self.frames@[k as int].names@[i as int]@ == x@
                    && self@[k as int].vars.contains_key(x@)
                    && self@[k as int].vars[x@] == self.frames@[k as int].values@[i as int],
                None => !self@[k as int].vars.contains_key(x@),
            },
    {
        proof {
            use_type_invariant(self);
        }
        assert(self@[k as int] == frame_view(self.frames@[k as int]));
        let frame = &self.frames[k];
        let n = frame.names.len();
        let mut i: usize = 0;
        assert(frame_wf(*frame, k as int));
        while i < n
            invariant
                frame_wf(*frame, k as int),
                k < self.frames@.len(),
                *frame == self.frames@[k as int],
                self@[k as int] == frame_view(*frame),
                n == frame.names@.len(),
                i <= n,
                forall|j: int| 0 <= j < i ==> frame.names@[j]@ != x@,
            decreases n - i,
        {
            if frame.names[i] == *x {
                proof {
                    lemma_frame_get(*frame, k as int, i as int);
                }
                return Some(i);
            }
            i = i + 1;
        }
        None
    }

    /// Reads a variable: its binding in scope `scope` if it has one, else its
    /// value in the enclosing scopes, nearest first.
    pub fn read(&self, scope: usize, variable: &str) -> (r: Result<&T, LoxError<T>>)
        requires
            scope < self@.len(),
        ensures
            match r {
                Ok(v) => lookup(self@, scope as int, variable@) == Some(*v),
                Err(e) => lookup(self@, scope as int, variable@) is None
                    && not_found(e, variable@),
            },
    {
        proof {
            use_type_invariant(self);
        }
        let key = variable.to_owned();
        let mut cur = scope;
        loop
            invariant
                self.wf(),
                cur < self@.len(),
                key@ == variable@,
                lookup(self@, scope as int, variable@) == lookup(self@, cur as int, variable@),
            decreases cur,
        {
            match self.find(cur, &key) {
                Some(i) => {
                    return Ok(&self.frames[cur].values[i]);
                },
                None => {
                    assert(frame_wf(self.frames@[cur as int], cur as int));
                    match self.frames[cur].parent {
                        Some(p) => {
                            cur = p;
                        },
                        None => {
                            return Err(LoxError::VariableNotFound(key));
                        },
                    }
                },
            }
        }
    }

    /// Declares a variable in scope `scope`, binding it to `value`. A binding
    /// of the same name in that scope is replaced and its value returned;
    /// bindings in other scopes are not touched.
    pub fn declare(&mut self, scope: usize, variable: &str, value: T) -> (r: Option<T>)
        requires
            scope < old(self)@.len(),
        ensures
            final(self)@ == bind(old(self)@, scope as int, variable@, value),
            r == (if old(self)@[scope as int].vars.contains_key(variable@) {
                Some(old(self)@[scope as int].vars[variable@])
            } else {
                None
            }),
    {
        proof {
            use_type_invariant(&*self);
        }
        let key = variable.to_owned();
        let ghost before = self.frames@;
        assert(frame_wf(before[scope as int], scope as int));
        let found = self.find(scope, &key);
        let mut frames = Self::stand_in();
        std::mem::swap(&mut self.frames, &mut frames);
        let r = match found {
            Some(i) => {
                let mut v = value;
                std::mem::swap(&mut frames[scope].values[i], &mut v);
                proof {
                    lemma_frame_set(before[scope as int], frames@[scope as int], scope as int, i as int, value);
                }
                Some(v)
            },
            None => {
                let ghost k2 = key;
                frames[scope].names.push(key);
                frames[scope].values.push(value);
                proof {
                    lemma_frame_push(before[scope as int], frames@[scope as int], scope as int, k2, value);
                }
                None
            },
        };
        proof {
            assert(forall|k: int| 0 <= k < frames@.len() && k != scope ==> frames@[k] == before[k]);
        }
        self.frames = frames;
        proof {
            assert(self@ =~= bind(old(self)@, scope as int, variable@, value));
        }
        r
    }

    /// Assigns `value` to a variable in the nearest scope, from `scope`
    /// outward, that binds it, and returns the value it replaced. Where no
    /// enclosing scope binds it, nothing changes and the error names it.
    pub fn update(&mut self, scope: usize, variable: &str, value: T) -> (r: Result<T, LoxError<T>>)
        requires
            scope < old(self)@.len(),
        ensures
            match owner(old(self)@, scope as int, variable@) {
                Some(o) => final(self)@ == bind(old(self)@, o, variable@, value)
                    && r == Ok::<T, LoxError<T>>(old(self)@[o].vars[variable@]),
                None => final(self)@ == old(self)@ && (r matches Err(e) && not_found(e, variable@)),
            },
    {
        proof {
            use_type_invariant(&*self);
        }
        let key = variable.to_owned();
        let mut cur = scope;
        loop
            invariant
                *self == *old(self),
                self.wf(),
                cur < self@.len(),
                key@ == variable@,
                owner(self@, scope as int, variable@) == owner(self@, cur as int, variable@),
            decreases cur,
        {
            assert(frame_wf(self.frames@[cur as int], cur as int));
            match self.find(cur, &key) {
                Some(i) => {
                    let ghost before = self.frames@;
                    let mut frames = Self::stand_in();
                    std::mem::swap(&mut self.frames, &mut frames);
                    let mut v = value;
                    std::mem::swap(&mut frames[cur].values[i], &mut v);
                    proof {
                        lemma_frame_set(before[cur as int], frames@[cur as int], cur as int, i as int, value);
                        assert(forall|k: int| 0 <= k < frames@.len() && k != cur ==> frames@[k] == before[k]);
                    }
                    self.frames = frames;
                    proof {
                        assert(self@ =~= bind(old(self)@, cur as int, variable@, value));
                    }
                    return Ok(v);
                },
                None => {
                    match self.frames[cur].parent {
                        Some(p) => {
                            cur = p;
                        },
                        None => {
                            return Err(LoxError::VariableNotFound(key));
                        },
                    }
                },
            }
        }
    }
}

} // verus!
