//! Scopes: where names are bound to values.
use vstd::prelude::*;
use crate::object::{Object, SObject, EnvRef, value_wf};

verus! {

broadcast use vstd::std_specs::vec::group_vec_axioms, vstd::seq::group_seq_axioms;

/// One scope: its bindings in the order they were made, and the scope that
/// encloses it.
pub struct Frame {
    store: Vec<(String, Object)>,
    outer: Option<EnvRef>,
}

/// All scopes of a running program, each named by its index, with the lines
/// that `print` has written and nobody has taken yet. Scope 0 is the global
/// scope. A function value names the scope it was made in, and a call makes a
/// new scope enclosed by that one; scopes are never removed, so a closure sees
/// later bindings of the scope it captured.
pub struct Environment {
    frames: Vec<Frame>,
    output: Vec<String>,
}

/// The mathematical form of a scope.
pub struct SFrame {
    pub store: Seq<(Seq<char>, SObject)>,
    pub outer: Option<nat>,
}

/// The mathematical form of an `Environment`.
pub struct SEnv {
    pub frames: Seq<SFrame>,
    pub output: Seq<Seq<char>>,
}

/// The view of a scope.
pub closed spec fn frame_view(f: Frame) -> SFrame {
    SFrame {
        store: Seq::new(f.store@.len(), |i: int| (f.store@[i].0@, f.store@[i].1@)),
        outer: match f.outer {
            Some(o) => Some(o as nat),
            None => None,
        },
    }
}

impl View for Environment {
    type V = SEnv;

    closed spec fn view(&self) -> SEnv {
        SEnv {
            frames: Seq::new(self.frames@.len(), |i: int| frame_view(self.frames@[i])),
            output: Seq::new(self.output@.len(), |i: int| self.output@[i]@),
        }
    }
}

/// The index of the binding of `name` in `st`, or -1.
pub open spec fn store_index(st: Seq<(Seq<char>, SObject)>, name: Seq<char>) -> int
    decreases st.len(),
{
    if st.len() == 0 {
        -1
    } else {
        let j = store_index(st.drop_last(), name);
        if j >= 0 {
            j
        } else if st.last().0 == name {
            st.len() - 1
        } else {
            -1
        }
    }
}

/// The value bound to `name` in `st`.
pub open spec fn store_get(st: Seq<(Seq<char>, SObject)>, name: Seq<char>) -> Option<SObject> {
    let j = store_index(st, name);
    if j >= 0 {
        Some(st[j].1)
    } else {
        None
    }
}

/// `st` with `name` bound to `v`: an existing binding is replaced in place,
/// else a new one is added at the end.
pub open spec fn store_set(st: Seq<(Seq<char>, SObject)>, name: Seq<char>, v: SObject) -> Seq<
    (Seq<char>, SObject),
> {
    let j = store_index(st, name);
    if j >= 0 {
        st.update(j, (name, v))
    } else {
        st.push((name, v))
    }
}

/// The value of `name` seen from scope `scope`: its binding there, else in the
/// enclosing scopes, innermost first.
pub open spec fn env_get(frames: Seq<SFrame>, scope: int, name: Seq<char>) -> Option<SObject>
    decreases scope,
{
    if !(0 <= scope < frames.len()) {
        None
    } else {
        match store_get(frames[scope].store, name) {
            Some(v) => Some(v),
            None => match frames[scope].outer {
                Some(o) => if o < scope {
                    env_get(frames, o as int, name)
                } else {
                    None
                },
                None => None,
            },
        }
    }
}

/// `env` with `name` bound to `v` in scope `scope` (no change for a scope that
/// does not exist).
pub open spec fn env_set(env: SEnv, scope: int, name: Seq<char>, v: SObject) -> SEnv {
    if 0 <= scope < env.frames.len() {
        SEnv {
            frames: env.frames.update(
                scope,
                SFrame { store: store_set(env.frames[scope].store, name, v), outer: env.frames[scope].outer },
            ),
            ..env
        }
    } else {
        env
    }
}

/// `env` with a new empty scope enclosed by `outer`; the new scope's index is
/// the old number of scopes.
pub open spec fn env_enclose(env: SEnv, outer: nat) -> SEnv {
    SEnv { frames: env.frames.push(SFrame { store: Seq::empty(), outer: Some(outer) }), ..env }
}

/// An environment with only an empty global scope and no output.
pub open spec fn env_empty() -> SEnv {
    SEnv { frames: seq![SFrame { store: Seq::empty(), outer: None }], output: Seq::empty() }
}

proof fn lemma_store_index_take(st: Seq<(Seq<char>, SObject)>, name: Seq<char>, i: int)
    requires
        0 <= i < st.len(),
        store_index(st.take(i), name) == -1,
    ensures
        store_index(st.take(i + 1), name) == if st[i].0 == name { i } else { -1 },
{
    assert(st.take(i + 1).drop_last() =~= st.take(i));
}

/// `store_index` finds the first binding of `name`, and -1 when there is none.
proof fn lemma_store_index_first(st: Seq<(Seq<char>, SObject)>, name: Seq<char>)
    ensures
        -1 <= store_index(st, name) < st.len(),
        store_index(st, name) >= 0 ==> st[store_index(st, name)].0 == name,
        forall|k: int|
            0 <= k < st.len() && #[trigger] st[k].0 == name ==> 0 <= store_index(st, name) <= k,
    decreases st.len(),
{
    if st.len() > 0 {
        let d = st.drop_last();
        lemma_store_index_first(d, name);
        assert forall|k: int| 0 <= k < st.len() && #[trigger] st[k].0 == name implies 0
            <= store_index(st, name) <= k by {
            if k < st.len() - 1 {
                assert(d[k] == st[k]);
            }
        }
    }
}

proof fn lemma_store_get_set_same(st: Seq<(Seq<char>, SObject)>, name: Seq<char>, v: SObject)
    ensures
        store_get(store_set(st, name, v), name) == Some(v),
{
    lemma_store_index_first(st, name);
    let j = store_index(st, name);
    let st1 = store_set(st, name, v);
    lemma_store_index_first(st1, name);
    if j >= 0 {
        assert(st1[j].0 == name);
        let i = store_index(st1, name);
        if i < j {
            assert(st1[i] == st[i]);
            assert(st[i].0 == name);
        }
    } else {
        assert(st1.drop_last() =~= st);
    }
}

proof fn lemma_store_get_set_other(
    st: Seq<(Seq<char>, SObject)>,
    n1: Seq<char>,
    n2: Seq<char>,
    v: SObject,
)
    requires
        n1 != n2,
    ensures
        store_get(store_set(st, n1, v), n2) == store_get(st, n2),
{
    lemma_store_index_first(st, n1);
    let j = store_index(st, n1);
    let st1 = store_set(st, n1, v);
    lemma_store_index_first(st, n2);
    lemma_store_index_first(st1, n2);
    if j >= 0 {
        let a = store_index(st, n2);
        let b = store_index(st1, n2);
        if a >= 0 {
            assert(st1[a] == st[a]);
            assert(st1[a].0 == n2);
        }
        if b >= 0 {
            assert(st1[b] == st[b]);
            assert(st[b].0 == n2);
        }
    } else {
        assert(st1.drop_last() =~= st);
    }
}

/// Read after write: once `name` is bound to `v` in a scope, looking `name`
/// up from that scope gives `v`.
pub proof fn lemma_get_after_set(env: SEnv, scope: int, name: Seq<char>, v: SObject)
    requires
        0 <= scope < env.frames.len(),
    ensures
        env_get(env_set(env, scope, name, v).frames, scope, name) == Some(v),
{
    lemma_store_get_set_same(env.frames[scope].store, name, v);
}

/// Binding one name leaves what every other name means, from every scope,
/// as it was.
pub proof fn lemma_set_keeps_other_names(
    env: SEnv,
    scope: int,
    name: Seq<char>,
    v: SObject,
    from: int,
    other: Seq<char>,
)
    requires
        name != other,
    ensures
        env_get(env_set(env, scope, name, v).frames, from, other) == env_get(env.frames, from, other),
    decreases from,
{
    let env1 = env_set(env, scope, name, v);
    if 0 <= scope < env.frames.len() {
        lemma_store_get_set_other(env.frames[scope].store, name, other, v);
    }
    if 0 <= from < env.frames.len() {
        match env.frames[from].outer {
            Some(o) => if o < from {
                lemma_set_keeps_other_names(env, scope, name, v, o as int, other);
            },
            None => {},
        }
    }
}

proof fn lemma_get_in_longer(frames: Seq<SFrame>, f: SFrame, scope: int, name: Seq<char>)
    requires
        scope < frames.len(),
    ensures
        env_get(frames.push(f), scope, name) == env_get(frames, scope, name),
    decreases scope,
{
    if 0 <= scope {
        match frames[scope].outer {
            Some(o) => if o < scope {
                lemma_get_in_longer(frames, f, o as int, name);
            },
            None => {},
        }
    }
}

/// A new scope starts empty and sees everything its enclosing scope sees.
pub proof fn lemma_enclosed_sees_outer(env: SEnv, outer: nat, name: Seq<char>)
    requires
        outer < env.frames.len(),
    ensures
        env_get(env_enclose(env, outer).frames, env.frames.len() as int, name) == env_get(
            env.frames,
            outer as int,
            name,
        ),
{
    let f = SFrame { store: Seq::empty(), outer: Some(outer) };
    lemma_get_in_longer(env.frames, f, outer as int, name);
    lemma_store_index_first(f.store, name);
}

/// Well-formedness of an environment: every value bound in every scope is
/// well-formed.
pub open spec fn env_wf(env: SEnv) -> bool {
    forall|f: int, j: int|
        0 <= f < env.frames.len() && 0 <= j < env.frames[f].store.len() ==> value_wf(
            #[trigger] env.frames[f].store[j].1,
        )
}

/// A lookup in a well-formed environment gives a well-formed value.
pub proof fn lemma_get_wf(env: SEnv, scope: int, name: Seq<char>)
    requires
        env_wf(env),
    ensures
        env_get(env.frames, scope, name) matches Some(v) ==> value_wf(v),
    decreases scope,
{
    if 0 <= scope < env.frames.len() {
        lemma_store_index_first(env.frames[scope].store, name);
        match env.frames[scope].outer {
            Some(o) => if o < scope {
                lemma_get_wf(env, o as int, name);
            },
            None => {},
        }
    }
}

/// Binding a well-formed value keeps an environment well-formed.
pub proof fn lemma_set_wf(env: SEnv, scope: int, name: Seq<char>, v: SObject)
    requires
        env_wf(env),
        value_wf(v),
    ensures
        env_wf(env_set(env, scope, name, v)),
{
    if 0 <= scope < env.frames.len() {
        lemma_store_index_first(env.frames[scope].store, name);
        let e1 = env_set(env, scope, name, v);
        assert forall|f: int, j: int|
            0 <= f < e1.frames.len() && 0 <= j < e1.frames[f].store.len() implies value_wf(
            #[trigger] e1.frames[f].store[j].1,
        ) by {
            if f == scope {
                let st = env.frames[scope].store;
                if j < st.len() && j != store_index(st, name) {
                    assert(e1.frames[f].store[j] == st[j]);
                }
            }
        }
    }
}

/// A new empty scope keeps an environment well-formed.
pub proof fn lemma_enclose_wf(env: SEnv, outer: nat)
    requires
        env_wf(env),
    ensures
        env_wf(env_enclose(env, outer)),
{
    let e1 = env_enclose(env, outer);
    assert forall|f: int, j: int|
        0 <= f < e1.frames.len() && 0 <= j < e1.frames[f].store.len() implies value_wf(
        #[trigger] e1.frames[f].store[j].1,
    ) by {
        assert(f < env.frames.len());
        assert(e1.frames[f] == env.frames[f]);
    }
}

impl Frame {
    /// The index of the binding of `key`, or `None`.
    fn find(&self, key: &String) -> (r: Option<usize>)
        ensures
            match r {
                Some(j) => store_index(frame_view(*self).store, key@) == j,
                None => store_index(frame_view(*self).store, key@) == -1,
            },
    {
        let ghost st = frame_view(*self).store;
        let mut i: usize = 0;
        assert(st.take(0) =~= Seq::<(Seq<char>, SObject)>::empty());
        while i < self.store.len()
            invariant
                i <= self.store@.len(),
                st == frame_view(*self).store,
                store_index(st.take(i as int), key@) == -1,
            decreases self.store@.len() - i,
        {
            proof {
                lemma_store_index_take(st, key@, i as int);
            }
            if self.store[i].0 == *key {
                proof {
                    assert(st.take(i as int + 1) =~= st.take(i as int + 1));
                    lemma_store_index_suffix(st, key@, i as int + 1);
                }
                return Some(i);
            }
            i = i + 1;
        }
        assert(st.take(i as int) =~= st);
        None
    }
}

proof fn lemma_store_index_suffix(st: Seq<(Seq<char>, SObject)>, name: Seq<char>, k: int)
    requires
        0 <= k <= st.len(),
        store_index(st.take(k), name) >= 0,
    ensures
        store_index(st, name) == store_index(st.take(k), name),
    decreases st.len() - k,
{
    if k == st.len() {
        assert(st.take(k) =~= st);
    } else {
        lemma_store_index_suffix_step(st, name, k);
        lemma_store_index_suffix(st, name, k + 1);
    }
}

proof fn lemma_store_index_suffix_step(st: Seq<(Seq<char>, SObject)>, name: Seq<char>, k: int)
    requires
        0 <= k < st.len(),
        store_index(st.take(k), name) >= 0,
    ensures
        store_index(st.take(k + 1), name) == store_index(st.take(k), name),
{
    assert(st.take(k + 1).drop_last() =~= st.take(k));
}

impl Environment {
    /// A new environment: one empty global scope (index 0) and no output.
    pub fn new() -> (e: Environment)
        ensures
            e@ == env_empty(),
            env_wf(e@),
    {
        let mut frames: Vec<Frame> = Vec::new();
        let f = Frame { store: Vec::new(), outer: None };
        proof {
            assert(frame_view(f).store =~= Seq::<(Seq<char>, SObject)>::empty());
        }
        frames.push(f);
        let e = Environment { frames, output: Vec::new() };
        assert(e@.frames =~= env_empty().frames);
        assert(e@.output =~= env_empty().output);
        e
    }

    /// Adds a new empty scope enclosed by `outer`, and returns its index.
    pub fn new_enclosed(&mut self, outer: EnvRef) -> (r: EnvRef)
        ensures
            r == old(self)@.frames.len(),
            final(self)@ == env_enclose(old(self)@, outer as nat),
    {
        let r: usize = self.frames.len();
        let f = Frame { store: Vec::new(), outer: Some(outer) };
        proof {
            assert(frame_view(f).store =~= Seq::<(Seq<char>, SObject)>::empty());
        }
        self.frames.push(f);
        proof {
            assert(final(self)@.frames =~= env_enclose(old(self)@, outer as nat).frames);
        }
        r
    }

    /// The value of `name` seen from scope `scope`.
    pub fn get(&self, scope: EnvRef, name: &str) -> (r: Option<Object>)
        ensures
            match r {
                Some(o) => env_get(self@.frames, scope as int, name@) == Some(o@),
                None => env_get(self@.frames, scope as int, name@) is None,
            },
    {
        let key = name.to_owned();
        let mut cur: usize = scope;
        loop
            invariant
                env_get(self@.frames, cur as int, key@) == env_get(self@.frames, scope as int, name@),
                key@ == name@,
            decreases cur,
        {
            if cur >= self.frames.len() {
                return None;
            }
            let frame = &self.frames[cur];
            assert(frame_view(*frame) == self@.frames[cur as int]);
            match frame.find(&key) {
                Some(j) => {
                    proof {
                        lemma_store_index_first(frame_view(*frame).store, key@);
                    }
                    return Some(frame.store[j].1.copy());
                },
                None => {},
            }
            match frame.outer {
                Some(o) => {
                    if o < cur {
                        cur = o;
                    } else {
                        return None;
                    }
                },
                None => {
                    return None;
                },
            }
        }
    }

    /// Binds `name` to `val` in scope `scope` (nothing happens for a scope that
    /// does not exist), and returns a copy of `val`.
    pub fn set(&mut self, scope: EnvRef, name: String, val: Object) -> (r: Object)
        ensures
            r@ == val@,
            final(self)@ == env_set(old(self)@, scope as int, name@, val@),
            env_wf(old(self)@) && value_wf(val@) ==> env_wf(final(self)@),
    {
        proof {
            if env_wf(self@) && value_wf(val@) {
                lemma_set_wf(self@, scope as int, name@, val@);
            }
        }
        let r = val.copy();
        if scope >= self.frames.len() {
            return r;
        }
        let ghost old_env = self@;
        let j = self.frames[scope].find(&name);
        let mut frame = Frame { store: Vec::new(), outer: None };
        std::mem::swap(&mut frame, &mut self.frames[scope]);
        let ghost fv = frame_view(frame);
        assert(fv == old_env.frames[scope as int]);
        match j {
            Some(j) => {
                proof {
                    lemma_store_index_first(fv.store, name@);
                }
                frame.store.set(j, (name, val));
            },
            None => {
                frame.store.push((name, val));
            },
        }
        proof {
            assert(frame_view(frame).store =~= store_set(fv.store, name@, val@));
        }
        self.frames.set(scope, frame);
        proof {
            assert(final(self)@.frames =~= env_set(old_env, scope as int, name@, val@).frames);
        }
        r
    }

    /// Appends a line of output.
    pub fn write_line(&mut self, line: String)
        ensures
            final(self)@ == (SEnv { output: old(self)@.output.push(line@), ..old(self)@ }),
    {
        self.output.push(line);
        proof {
            assert(final(self)@.output =~= old(self)@.output.push(line@));
            assert(final(self)@.frames =~= old(self)@.frames);
        }
    }

    /// Removes and returns the lines of output written so far.
    pub fn take_output(&mut self) -> (r: Vec<String>)
        ensures
            r@.len() == old(self)@.output.len(),
            forall|i: int| 0 <= i < r@.len() ==> #[trigger] r@[i]@ == old(self)@.output[i],
            final(self)@ == (SEnv { output: Seq::empty(), ..old(self)@ }),
    {
        let mut r: Vec<String> = Vec::new();
        std::mem::swap(&mut r, &mut self.output);
        proof {
            assert(final(self)@.output =~= Seq::<Seq<char>>::empty());
            assert(final(self)@.frames =~= old(self)@.frames);
        }
        r
    }
}

} // verus!
