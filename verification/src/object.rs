//! Runtime values.
use vstd::prelude::*;
use crate::ast::{BlockStatement, Identifier, SStmt, idents_view, stmts_view, copy_identifiers, join, stmts_text, lemma_join_push, write_idents, write_stmts};
use crate::text::{int_text, bool_text};

verus! {

broadcast use vstd::std_specs::vec::group_vec_axioms, vstd::seq::group_seq_axioms;

/// A reference to a scope of an `Environment`: its index there.
pub type EnvRef = usize;

/// The functions that every program can call by name.
#[derive(Debug, Clone, Copy, PartialEq, Eq, Structural)]
pub enum Builtin {
    Len,
    First,
    Last,
    Rest,
    Push,
    Print,
}

/// A runtime value.
#[derive(Debug)]
pub enum Object {
    Integer(i64),
    Boolean(bool),
    String(String),
    Null,
    ReturnValue(Box<Object>),
    Error(String),
    Function { parameters: Vec<Identifier>, body: BlockStatement, env: EnvRef },
    Builtin(Builtin),
    Array(Vec<Object>),
    Hash(Vec<HashPair>),
}

/// What a hash is keyed by: the value of an integer, boolean or string.
#[derive(Debug, PartialEq, Eq, Hash)]
pub enum HashKey {
    Integer(i64),
    Boolean(bool),
    String(String),
}

/// An entry of a hash: the key as it was written, and its value.
#[derive(Debug)]
pub struct HashPair {
    pub key: Object,
    pub value: Object,
}

/// The mathematical form of a value. A hash is the sequence of its entries,
/// in the order their keys were first inserted.
pub enum SObject {
    Integer(i64),
    Boolean(bool),
    Str(Seq<char>),
    Null,
    ReturnValue(Box<SObject>),
    Error(Seq<char>),
    Function(Seq<Seq<char>>, Seq<SStmt>, nat),
    Builtin(Builtin),
    Array(Seq<SObject>),
    Hash(Seq<(SObject, SObject)>),
}

/// The mathematical form of a hash key.
pub enum SKey {
    Integer(i64),
    Boolean(bool),
    Str(Seq<char>),
}

/// The view of a value.
pub open spec fn obj_view(o: &Object) -> SObject
    decreases o,
{
    match o {
        Object::Integer(n) => SObject::Integer(*n),
        Object::Boolean(b) => SObject::Boolean(*b),
        Object::String(s) => SObject::Str(s@),
        Object::Null => SObject::Null,
        Object::ReturnValue(v) => SObject::ReturnValue(Box::new(obj_view(&**v))),
        Object::Error(m) => SObject::Error(m@),
        Object::Function { parameters, body, env } => SObject::Function(
            idents_view(parameters@),
            stmts_view(body.statements@),
            *env as nat,
        ),
        Object::Builtin(b) => SObject::Builtin(*b),
        Object::Array(els) => SObject::Array(objs_view(els@)),
        Object::Hash(pairs) => SObject::Hash(hash_pairs_view(pairs@)),
    }
}

/// The views of a sequence of values.
pub open spec fn objs_view(v: Seq<Object>) -> Seq<SObject>
    decreases v,
{
    if v.len() == 0 {
        Seq::empty()
    } else {
        objs_view(v.drop_last()).push(obj_view(&v.last()))
    }
}

/// The views of the entries of a hash.
pub open spec fn hash_pairs_view(v: Seq<HashPair>) -> Seq<(SObject, SObject)>
    decreases v,
{
    if v.len() == 0 {
        Seq::empty()
    } else {
        hash_pairs_view(v.drop_last()).push((obj_view(&v.last().key), obj_view(&v.last().value)))
    }
}

impl View for Object {
    type V = SObject;

    open spec fn view(&self) -> SObject {
        obj_view(self)
    }
}

impl View for HashKey {
    type V = SKey;

    open spec fn view(&self) -> SKey {
        match self {
            HashKey::Integer(n) => SKey::Integer(*n),
            HashKey::Boolean(b) => SKey::Boolean(*b),
            HashKey::String(s) => SKey::Str(s@),
        }
    }
}

/// Element-wise form of `objs_view`.
pub proof fn lemma_objs_view(v: Seq<Object>)
    ensures
        objs_view(v).len() == v.len(),
        forall|i: int| 0 <= i < v.len() ==> #[trigger] objs_view(v)[i] == v[i]@,
    decreases v.len(),
{
    if v.len() > 0 {
        lemma_objs_view(v.drop_last());
    }
}

/// Element-wise form of `hash_pairs_view`.
pub proof fn lemma_hash_pairs_view(v: Seq<HashPair>)
    ensures
        hash_pairs_view(v).len() == v.len(),
        forall|i: int|
            0 <= i < v.len() ==> #[trigger] hash_pairs_view(v)[i] == (v[i].key@, v[i].value@),
    decreases v.len(),
{
    if v.len() > 0 {
        lemma_hash_pairs_view(v.drop_last());
    }
}

/// The name of a value's type, as error messages show it.
pub open spec fn kind_name(o: SObject) -> Seq<char> {
    match o {
        SObject::Integer(_) => "INTEGER"@,
        SObject::Boolean(_) => "BOOLEAN"@,
        SObject::Str(_) => "STRING"@,
        SObject::Null => "NULL"@,
        SObject::ReturnValue(_) => "RETURN_VALUE"@,
        SObject::Error(_) => "ERROR"@,
        SObject::Function(..) => "FUNCTION"@,
        SObject::Builtin(_) => "BUILTIN"@,
        SObject::Array(_) => "ARRAY"@,
        SObject::Hash(_) => "HASH"@,
    }
}

/// Booleans are shown as `true` and `false`, so the two are told apart; the
/// null value is shown as `null`, unlike either.
pub proof fn lemma_boolean_shown(b: bool)
    ensures
        inspect(SObject::Boolean(b)) == (if b { "true"@ } else { "false"@ }),
        inspect(SObject::Boolean(true)) != inspect(SObject::Boolean(false)),
        inspect(SObject::Null) == "null"@,
        inspect(SObject::Boolean(b)) != inspect(SObject::Null),
{
    reveal_strlit("true");
    reveal_strlit("false");
    reveal_strlit("null");
    assert("true"@[0] != "null"@[0]);
    assert("true"@.len() != "false"@.len());
}

/// Integers are shown as decimal text that reads back as the same number.
pub proof fn lemma_integer_shown(n: i64)
    ensures
        crate::text::parse_i64_spec(inspect(SObject::Integer(n))) == Some(n),
{
    crate::text::lemma_int_text_parses_back(n);
}

/// The key a value is stored under in a hash; integers, booleans and strings
/// have one, other values none.
pub open spec fn hash_key(o: SObject) -> Option<SKey> {
    match o {
        SObject::Integer(n) => Some(SKey::Integer(n)),
        SObject::Boolean(b) => Some(SKey::Boolean(b)),
        SObject::Str(s) => Some(SKey::Str(s)),
        _ => None,
    }
}

/// Every entry of a hash has a key, and no two entries share one.
pub open spec fn keys_distinct(pairs: Seq<(SObject, SObject)>) -> bool {
    &&& forall|i: int| 0 <= i < pairs.len() ==> (#[trigger] hash_key(pairs[i].0)) is Some
    &&& forall|i: int, j: int|
        0 <= i < j < pairs.len() ==> hash_key(#[trigger] pairs[i].0) != hash_key(#[trigger] pairs[j].0)
}

/// Well-formedness of a value: every hash in it, however deeply nested in
/// arrays, hashes and `return` values, has keys and holds none of them twice.
pub open spec fn value_wf(o: SObject) -> bool
    decreases o,
{
    match o {
        SObject::ReturnValue(v) => value_wf(*v),
        SObject::Array(els) => values_wf(els),
        SObject::Hash(ps) => keys_distinct(ps) && entries_wf(ps),
        _ => true,
    }
}

/// Every value of `s` is well-formed.
pub open spec fn values_wf(s: Seq<SObject>) -> bool
    decreases s,
{
    if s.len() == 0 {
        true
    } else {
        values_wf(s.drop_last()) && value_wf(s.last())
    }
}

/// Every key and value of the entries `ps` is well-formed.
pub open spec fn entries_wf(ps: Seq<(SObject, SObject)>) -> bool
    decreases ps,
{
    if ps.len() == 0 {
        true
    } else {
        entries_wf(ps.drop_last()) && value_wf(ps.last().0) && value_wf(ps.last().1)
    }
}

/// Element-wise form of `values_wf`.
pub proof fn lemma_values_wf(s: Seq<SObject>)
    ensures
        values_wf(s) <==> forall|i: int| 0 <= i < s.len() ==> #[trigger] value_wf(s[i]),
    decreases s.len(),
{
    if s.len() > 0 {
        let d = s.drop_last();
        lemma_values_wf(d);
        if values_wf(s) {
            assert forall|i: int| 0 <= i < s.len() implies #[trigger] value_wf(s[i]) by {
                if i < s.len() - 1 {
                    assert(s[i] == d[i]);
                }
            }
        }
        if forall|i: int| 0 <= i < s.len() ==> #[trigger] value_wf(s[i]) {
            assert forall|i: int| 0 <= i < d.len() implies #[trigger] value_wf(d[i]) by {
                assert(s[i] == d[i]);
                assert(value_wf(s[i]));
            }
            assert(value_wf(s[s.len() - 1]));
        }
    }
}

/// Element-wise form of `entries_wf`.
pub proof fn lemma_entries_wf(ps: Seq<(SObject, SObject)>)
    ensures
        entries_wf(ps) <==> forall|i: int|
            0 <= i < ps.len() ==> value_wf(#[trigger] ps[i].0) && value_wf(ps[i].1),
    decreases ps.len(),
{
    if ps.len() > 0 {
        let d = ps.drop_last();
        lemma_entries_wf(d);
        if entries_wf(ps) {
            assert(entries_wf(d));
            assert forall|i: int| 0 <= i < ps.len() implies value_wf(#[trigger] ps[i].0) && value_wf(
                ps[i].1,
            ) by {
                if i < ps.len() - 1 {
                    assert(ps[i] == d[i]);
                    assert(value_wf(d[i].0) && value_wf(d[i].1));
                } else {
                    assert(ps[i] == ps.last());
                }
            }
        }
        if forall|i: int| 0 <= i < ps.len() ==> value_wf(#[trigger] ps[i].0) && value_wf(ps[i].1) {
            assert forall|i: int| 0 <= i < d.len() implies value_wf(#[trigger] d[i].0) && value_wf(
                d[i].1,
            ) by {
                assert(ps[i] == d[i]);
                assert(value_wf(ps[i].0));
            }
            assert(value_wf(ps[ps.len() - 1].0));
        }
    }
}

/// How a value is shown to the user.
pub open spec fn inspect(o: SObject) -> Seq<char>
    decreases o,
{
    match o {
        SObject::Integer(n) => int_text(n as int),
        SObject::Boolean(b) => bool_text(b),
        SObject::Str(s) => s,
        SObject::Null => "null"@,
        SObject::ReturnValue(v) => inspect(*v),
        SObject::Error(m) => "ERROR: "@ + m,
        SObject::Function(params, body, _) => "fn("@ + join(params, ", "@) + ") {\n"@ + stmts_text(
            body,
        ) + "\n}"@,
        SObject::Builtin(_) => "builtin function"@,
        SObject::Array(els) => "["@ + join(inspect_all(els), ", "@) + "]"@,
        SObject::Hash(pairs) => "{"@ + join(inspect_pairs(pairs), ", "@) + "}"@,
    }
}

/// The texts of a sequence of values.
pub open spec fn inspect_all(v: Seq<SObject>) -> Seq<Seq<char>>
    decreases v,
{
    if v.len() == 0 {
        Seq::empty()
    } else {
        inspect_all(v.drop_last()).push(inspect(v.last()))
    }
}

/// The texts `key: value` of the entries of a hash.
pub open spec fn inspect_pairs(v: Seq<(SObject, SObject)>) -> Seq<Seq<char>>
    decreases v,
{
    if v.len() == 0 {
        Seq::empty()
    } else {
        inspect_pairs(v.drop_last()).push(inspect(v.last().0) + ": "@ + inspect(v.last().1))
    }
}

impl HashKey {
    /// Whether two keys are equal.
    pub fn same(&self, other: &HashKey) -> (r: bool)
        ensures
            r == (self@ == other@),
    {
        match (self, other) {
            (HashKey::Integer(a), HashKey::Integer(b)) => *a == *b,
            (HashKey::Boolean(a), HashKey::Boolean(b)) => *a == *b,
            (HashKey::String(a), HashKey::String(b)) => *a == *b,
            _ => false,
        }
    }
}

/// Copies of the values in `v`.
pub fn copy_objects(v: &Vec<Object>) -> (r: Vec<Object>)
    ensures
        objs_view(r@) == objs_view(v@),
    decreases v,
{
    let mut r: Vec<Object> = Vec::new();
    for i in 0..v.len()
        invariant
            r@.len() == i,
            forall|j: int| 0 <= j < i ==> #[trigger] r@[j]@ == v@[j]@,
    {
        assert(decreases_to!(v => v@[i as int]));
        r.push(v[i].copy());
    }
    proof {
        lemma_objs_view(r@);
        lemma_objs_view(v@);
    }
    assert(objs_view(r@) =~= objs_view(v@));
    r
}

/// Copies of the entries of a hash.
pub fn copy_hash_pairs(v: &Vec<HashPair>) -> (r: Vec<HashPair>)
    ensures
        hash_pairs_view(r@) == hash_pairs_view(v@),
    decreases v,
{
    let mut r: Vec<HashPair> = Vec::new();
    for i in 0..v.len()
        invariant
            r@.len() == i,
            forall|j: int|
                0 <= j < i ==> (#[trigger] r@[j]).key@ == v@[j].key@ && r@[j].value@ == v@[j].value@,
    {
        assert(decreases_to!(v => v@[i as int]));
        assert(decreases_to!(v@[i as int] => v@[i as int].key));
        assert(decreases_to!(v@[i as int] => v@[i as int].value));
        let k = v[i].key.copy();
        let e = v[i].value.copy();
        r.push(HashPair { key: k, value: e });
    }
    proof {
        lemma_hash_pairs_view(r@);
        lemma_hash_pairs_view(v@);
    }
    assert(hash_pairs_view(r@) =~= hash_pairs_view(v@));
    r
}

impl Object {
    /// A copy of this value.
    pub fn copy(&self) -> (r: Object)
        ensures
            r@ == self@,
        decreases self,
    {
        match self {
            Object::Integer(n) => Object::Integer(*n),
            Object::Boolean(b) => Object::Boolean(*b),
            Object::String(s) => Object::String(s.clone()),
            Object::Null => Object::Null,
            Object::ReturnValue(v) => Object::ReturnValue(Box::new((**v).copy())),
            Object::Error(m) => Object::Error(m.clone()),
            Object::Function { parameters, body, env } => Object::Function {
                parameters: copy_identifiers(parameters),
                body: body.copy(),
                env: *env,
            },
            Object::Builtin(b) => Object::Builtin(*b),
            Object::Array(els) => Object::Array(copy_objects(els)),
            Object::Hash(pairs) => Object::Hash(copy_hash_pairs(pairs)),
        }
    }

    /// The name of this value's type.
    pub fn kind_name(&self) -> (r: &'static str)
        ensures
            r@ == kind_name(self@),
    {
        match self {
            Object::Integer(_) => "INTEGER",
            Object::Boolean(_) => "BOOLEAN",
            Object::String(_) => "STRING",
            Object::Null => "NULL",
            Object::ReturnValue(_) => "RETURN_VALUE",
            Object::Error(_) => "ERROR",
            Object::Function { .. } => "FUNCTION",
            Object::Builtin(_) => "BUILTIN",
            Object::Array(_) => "ARRAY",
            Object::Hash(_) => "HASH",
        }
    }

    /// The key this value is stored under in a hash, if it can be one.
    pub fn hash_key(&self) -> (r: Option<HashKey>)
        ensures
            match r {
                Some(k) => hash_key(self@) == Some(k@),
                None => hash_key(self@) is None,
            },
    {
        match self {
            Object::Integer(n) => Some(HashKey::Integer(*n)),
            Object::Boolean(b) => Some(HashKey::Boolean(*b)),
            Object::String(s) => Some(HashKey::String(s.clone())),
            _ => None,
        }
    }

    /// Whether this value is an error.
    pub fn is_error(&self) -> (r: bool)
        ensures
            r == (self@ is Error),
    {
        match self {
            Object::Error(_) => true,
            _ => false,
        }
    }
}


proof fn lemma_inspect_all_step(v: Seq<Object>, i: int)
    requires
        0 <= i < v.len(),
    ensures
        inspect_all(objs_view(v.take(i + 1))) == inspect_all(objs_view(v.take(i))).push(
            inspect(v[i]@),
        ),
{
    assert(v.take(i + 1).drop_last() =~= v.take(i));
    assert(objs_view(v.take(i + 1)).drop_last() =~= objs_view(v.take(i)));
}

proof fn lemma_inspect_pairs_step(v: Seq<HashPair>, i: int)
    requires
        0 <= i < v.len(),
    ensures
        inspect_pairs(hash_pairs_view(v.take(i + 1))) == inspect_pairs(
            hash_pairs_view(v.take(i)),
        ).push(inspect(v[i].key@) + ": "@ + inspect(v[i].value@)),
{
    assert(v.take(i + 1).drop_last() =~= v.take(i));
    assert(hash_pairs_view(v.take(i + 1)).drop_last() =~= hash_pairs_view(v.take(i)));
}

/// Appends how the values in `v` are shown, separated by `, `.
fn write_inspect_all(v: &Vec<Object>, out: &mut String)
    ensures
        final(out)@ == old(out)@ + join(inspect_all(objs_view(v@)), ", "@),
    decreases v,
{
    let ghost start = out@;
    for i in 0..v.len()
        invariant
            out@ == start + join(inspect_all(objs_view(v@.take(i as int))), ", "@),
    {
        proof {
            lemma_inspect_all_step(v@, i as int);
            lemma_join_push(inspect_all(objs_view(v@.take(i as int))), ", "@, inspect(v@[i as int]@));
        }
        if i > 0 {
            crate::text::push_str(out, ", ");
        }
        assert(decreases_to!(v => v@[i as int]));
        write_inspect(&v[i], out);
        assert(out@ =~= start + join(inspect_all(objs_view(v@.take(i as int + 1))), ", "@));
    }
    assert(v@.take(v@.len() as int) =~= v@);
}

/// Appends how the entries of a hash are shown, separated by `, `.
fn write_inspect_pairs(v: &Vec<HashPair>, out: &mut String)
    ensures
        final(out)@ == old(out)@ + join(inspect_pairs(hash_pairs_view(v@)), ", "@),
    decreases v,
{
    let ghost start = out@;
    for i in 0..v.len()
        invariant
            out@ == start + join(inspect_pairs(hash_pairs_view(v@.take(i as int))), ", "@),
    {
        let ghost item = inspect(v@[i as int].key@) + ": "@ + inspect(v@[i as int].value@);
        proof {
            lemma_inspect_pairs_step(v@, i as int);
            lemma_join_push(inspect_pairs(hash_pairs_view(v@.take(i as int))), ", "@, item);
        }
        if i > 0 {
            crate::text::push_str(out, ", ");
        }
        assert(decreases_to!(v => v@[i as int]));
        assert(decreases_to!(v@[i as int] => v@[i as int].key));
        assert(decreases_to!(v@[i as int] => v@[i as int].value));
        write_inspect(&v[i].key, out);
        crate::text::push_str(out, ": ");
        write_inspect(&v[i].value, out);
        assert(out@ =~= start + join(inspect_pairs(hash_pairs_view(v@.take(i as int + 1))), ", "@));
    }
    assert(v@.take(v@.len() as int) =~= v@);
}

/// Appends how a value is shown.
fn write_inspect(o: &Object, out: &mut String)
    ensures
        final(out)@ == old(out)@ + inspect(o@),
    decreases o,
{
    let ghost start = out@;
    match o {
        Object::Integer(n) => {
            crate::text::push_int(out, *n);
        },
        Object::Boolean(b) => {
            if *b {
                crate::text::push_str(out, "true");
            } else {
                crate::text::push_str(out, "false");
            }
        },
        Object::String(s) => {
            crate::text::push_str(out, s.as_str());
        },
        Object::Null => {
            crate::text::push_str(out, "null");
        },
        Object::ReturnValue(v) => {
            write_inspect(v, out);
        },
        Object::Error(m) => {
            crate::text::push_str(out, "ERROR: ");
            crate::text::push_str(out, m.as_str());
        },
        Object::Function { parameters, body, .. } => {
            crate::text::push_str(out, "fn(");
            write_idents(parameters, ", ", out);
            crate::text::push_str(out, ") {\n");
            write_stmts(&body.statements, out);
            crate::text::push_str(out, "\n}");
        },
        Object::Builtin(_) => {
            crate::text::push_str(out, "builtin function");
        },
        Object::Array(els) => {
            crate::text::push_str(out, "[");
            write_inspect_all(els, out);
            crate::text::push_str(out, "]");
        },
        Object::Hash(pairs) => {
            crate::text::push_str(out, "{");
            write_inspect_pairs(pairs, out);
            crate::text::push_str(out, "}");
        },
    }
    assert(out@ =~= start + inspect(o@));
}

impl Object {
    /// How this value is shown to the user.
    pub fn inspect(&self) -> (r: String)
        ensures
            r@ == inspect(self@),
    {
        let mut r = String::new();
        write_inspect(self, &mut r);
        assert(r@ =~= inspect(self@));
        r
    }
}

} // verus!
