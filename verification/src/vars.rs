//! Shell variables: scalars, arrays and the scopes that hold them.
use crate::entries::{drop_key, has_key, put, value_of, values_of};
use crate::text::joined;
use indexmap::IndexMap;
use vstd::prelude::*;

verus! {

/// The map of `indexmap`, which keeps its pairs in the order in which their keys came.
#[verifier::external_type_specification]
#[verifier::external_body]
#[verifier::reject_recursive_types(K)]
#[verifier::reject_recursive_types(V)]
#[verifier::reject_recursive_types(S)]
pub struct ExIndexMap<K, V, S>(indexmap::IndexMap<K, V, S>);

/// The pairs of an indexed array, in order.
pub uninterp spec fn indexed_entries(m: IndexMap<usize, String>) -> Seq<(usize, Seq<char>)>;

/// The pairs of an associative array, in order.
pub uninterp spec fn assoc_entries(m: IndexMap<String, String>) -> Seq<(Seq<char>, Seq<char>)>;

/// The variables of a scope, in order.
pub uninterp spec fn scope_entries(m: IndexMap<String, ShellVar>) -> Seq<(Seq<char>, VarView)>;

/// The value held by a shell variable: scalar, indexed array or associative array.
#[derive(Debug, PartialEq)]
pub enum VarValue {
    Scalar(String),
    IndexedArray(IndexMap<usize, String>),
    AssocArray(IndexMap<String, String>),
}

/// A variable's value as mathematical data.
pub enum ValueView {
    Scalar(Seq<char>),
    Indexed(Seq<(usize, Seq<char>)>),
    Assoc(Seq<(Seq<char>, Seq<char>)>),
}

impl ValueView {
    /// The scalar form: a scalar itself, or an array's values with a space between them.
    pub open spec fn scalar(self) -> Seq<char> {
        match self {
            ValueView::Scalar(s) => s,
            ValueView::Indexed(e) => joined(values_of(e), seq![' ']),
            ValueView::Assoc(e) => joined(values_of(e), seq![' ']),
        }
    }
}

impl View for VarValue {
    type V = ValueView;

    open spec fn view(&self) -> ValueView {
        match self {
            VarValue::Scalar(s) => ValueView::Scalar(s@),
            VarValue::IndexedArray(m) => ValueView::Indexed(indexed_entries(*m)),
            VarValue::AssocArray(m) => ValueView::Assoc(assoc_entries(*m)),
        }
    }
}

/// A shell variable with its attributes.
#[derive(Debug, PartialEq)]
pub struct ShellVar {
    pub value: VarValue,
    pub exported: bool,
    pub readonly: bool,
    /// Arithmetic is evaluated on assignment.
    pub integer: bool,
    /// The value is the name of another variable.
    pub nameref: bool,
}

/// A shell variable as mathematical data.
pub struct VarView {
    pub value: ValueView,
    pub exported: bool,
    pub readonly: bool,
    pub integer: bool,
    pub nameref: bool,
}

impl View for ShellVar {
    type V = VarView;

    open spec fn view(&self) -> VarView {
        VarView {
            value: self.value@,
            exported: self.exported,
            readonly: self.readonly,
            integer: self.integer,
            nameref: self.nameref,
        }
    }
}

/// `IndexMap::new` makes a map without pairs.
#[verifier::external_body]
pub(crate) fn indexed_new() -> (r: IndexMap<usize, String>)
    ensures
        indexed_entries(r) == Seq::<(usize, Seq<char>)>::empty(),
{
    IndexMap::new()
}

/// `IndexMap::len` is the number of pairs.
#[verifier::external_body]
pub(crate) fn indexed_len(m: &IndexMap<usize, String>) -> (r: usize)
    ensures
        r == indexed_entries(*m).len(),
{
    m.len()
}

/// `IndexMap::get` finds the value of a key.
#[verifier::external_body]
pub(crate) fn indexed_get(m: &IndexMap<usize, String>, key: usize) -> (r: Option<&String>)
    ensures
        match r {
            Some(v) => value_of(indexed_entries(*m), key) == Some(v@),
            None => value_of(indexed_entries(*m), key) is None,
        },
{
    m.get(&key)
}

/// `IndexMap::get_index` is the pair at a position.
#[verifier::external_body]
pub(crate) fn indexed_at(m: &IndexMap<usize, String>, i: usize) -> (r: Option<(&usize, &String)>)
    ensures
        match r {
            Some((k, v)) => i < indexed_entries(*m).len() && indexed_entries(*m)[i as int] == (*k, v@),
            None => i >= indexed_entries(*m).len(),
        },
{
    m.get_index(i)
}

/// `IndexMap::insert` replaces the value of a key in its place, or adds a new key last.
#[verifier::external_body]
pub(crate) fn indexed_insert(m: &mut IndexMap<usize, String>, key: usize, value: String)
    ensures
        indexed_entries(*final(m)) == put(indexed_entries(*old(m)), key, value@),
{
    m.insert(key, value);
}

/// `IndexMap::shift_remove` takes a key out and keeps the order of the others; the key is
/// then no longer there.
#[verifier::external_body]
pub(crate) fn indexed_remove(m: &mut IndexMap<usize, String>, key: usize)
    ensures
        indexed_entries(*final(m)) == drop_key(indexed_entries(*old(m)), key),
        !has_key(indexed_entries(*final(m)), key),
{
    m.shift_remove(&key);
}

/// `IndexMap::clone` copies the pairs in their order.
#[verifier::external_body]
pub(crate) fn indexed_clone(m: &IndexMap<usize, String>) -> (r: IndexMap<usize, String>)
    ensures
        indexed_entries(r) == indexed_entries(*m),
{
    m.clone()
}

/// `IndexMap::clone` copies the pairs in their order.
#[verifier::external_body]
pub(crate) fn assoc_clone(m: &IndexMap<String, String>) -> (r: IndexMap<String, String>)
    ensures
        assoc_entries(r) == assoc_entries(*m),
{
    m.clone()
}

/// `IndexMap::clone` copies the pairs in their order, each variable by its own `clone`.
#[verifier::external_body]
pub(crate) fn scope_clone(m: &IndexMap<String, ShellVar>) -> (r: IndexMap<String, ShellVar>)
    ensures
        scope_entries(r) == scope_entries(*m),
{
    m.clone()
}

/// `IndexMap::new` makes a map without pairs.
#[verifier::external_body]
pub(crate) fn assoc_new() -> (r: IndexMap<String, String>)
    ensures
        assoc_entries(r) == Seq::<(Seq<char>, Seq<char>)>::empty(),
{
    IndexMap::new()
}

/// `IndexMap::len` is the number of pairs.
#[verifier::external_body]
pub(crate) fn assoc_len(m: &IndexMap<String, String>) -> (r: usize)
    ensures
        r == assoc_entries(*m).len(),
{
    m.len()
}

/// `IndexMap::get` finds the value of a key.
#[verifier::external_body]
pub(crate) fn assoc_get<'a>(m: &'a IndexMap<String, String>, key: &str) -> (r: Option<&'a String>)
    ensures
        match r {
            Some(v) => value_of(assoc_entries(*m), key@) == Some(v@),
            None => value_of(assoc_entries(*m), key@) is None,
        },
{
    m.get(key)
}

/// `IndexMap::get_index` is the pair at a position.
#[verifier::external_body]
pub(crate) fn assoc_at(m: &IndexMap<String, String>, i: usize) -> (r: Option<(&String, &String)>)
    ensures
        match r {
            Some((k, v)) => i < assoc_entries(*m).len() && assoc_entries(*m)[i as int] == (k@, v@),
            None => i >= assoc_entries(*m).len(),
        },
{
    m.get_index(i)
}

/// `IndexMap::insert` replaces the value of a key in its place, or adds a new key last.
#[verifier::external_body]
pub(crate) fn assoc_insert(m: &mut IndexMap<String, String>, key: String, value: String)
    ensures
        assoc_entries(*final(m)) == put(assoc_entries(*old(m)), key@, value@),
{
    m.insert(key, value);
}

/// `IndexMap::shift_remove` takes a key out and keeps the order of the others; the key is
/// then no longer there.
#[verifier::external_body]
pub(crate) fn assoc_remove(m: &mut IndexMap<String, String>, key: &str)
    ensures
        assoc_entries(*final(m)) == drop_key(assoc_entries(*old(m)), key@),
        !has_key(assoc_entries(*final(m)), key@),
{
    m.shift_remove(key);
}

/// `IndexMap::new` makes a map without pairs.
#[verifier::external_body]
pub(crate) fn scope_new() -> (r: IndexMap<String, ShellVar>)
    ensures
        scope_entries(r) == Seq::<(Seq<char>, VarView)>::empty(),
{
    IndexMap::new()
}

/// `IndexMap::len` is the number of pairs.
#[verifier::external_body]
pub(crate) fn scope_len(m: &IndexMap<String, ShellVar>) -> (r: usize)
    ensures
        r == scope_entries(*m).len(),
{
    m.len()
}

/// `IndexMap::get` finds the value of a key.
#[verifier::external_body]
pub(crate) fn scope_get<'a>(m: &'a IndexMap<String, ShellVar>, key: &str) -> (r: Option<
    &'a ShellVar,
>)
    ensures
        match r {
            Some(v) => value_of(scope_entries(*m), key@) == Some(v@),
            None => value_of(scope_entries(*m), key@) is None,
        },
{
    m.get(key)
}

/// `IndexMap::get_mut` finds the value of a key, and what is written there becomes the key's
/// value.
#[verifier::external_body]
pub(crate) fn scope_get_mut<'a>(m: &'a mut IndexMap<String, ShellVar>, key: &str) -> (r: Option<
    &'a mut ShellVar,
>)
    ensures
        match r {
            Some(v) => value_of(scope_entries(*old(m)), key@) == Some((*v)@) && scope_entries(
                *final(m),
            ) == put(scope_entries(*old(m)), key@, (*final(v))@),
            None => value_of(scope_entries(*old(m)), key@) is None && *final(m) == *old(m),
        },
{
    m.get_mut(key)
}

/// `IndexMap::get_index` is the pair at a position.
#[verifier::external_body]
pub(crate) fn scope_at(m: &IndexMap<String, ShellVar>, i: usize) -> (r: Option<
    (&String, &ShellVar),
>)
    ensures
        match r {
            Some((k, v)) => i < scope_entries(*m).len() && scope_entries(*m)[i as int] == (k@, v@),
            None => i >= scope_entries(*m).len(),
        },
{
    m.get_index(i)
}

/// `IndexMap::insert` replaces the value of a key in its place, or adds a new key last.
#[verifier::external_body]
pub(crate) fn scope_insert(m: &mut IndexMap<String, ShellVar>, key: String, value: ShellVar)
    ensures
        scope_entries(*final(m)) == put(scope_entries(*old(m)), key@, value@),
{
    m.insert(key, value);
}

/// `IndexMap::shift_remove` takes a key out, hands out its value and keeps the order of the
/// others; the key is then no longer there.
#[verifier::external_body]
pub(crate) fn scope_remove(m: &mut IndexMap<String, ShellVar>, key: &str) -> (r: Option<ShellVar>)
    ensures
        scope_entries(*final(m)) == drop_key(scope_entries(*old(m)), key@),
        !has_key(scope_entries(*final(m)), key@),
        match r {
            Some(v) => value_of(scope_entries(*old(m)), key@) == Some(v@),
            None => value_of(scope_entries(*old(m)), key@) is None,
        },
{
    m.shift_remove(key)
}

/// The values of an indexed array, in order.
pub(crate) fn indexed_values(m: &IndexMap<usize, String>) -> (r: Vec<String>)
    ensures
        crate::views::strs(r@) == values_of(indexed_entries(*m)),
{
    broadcast use crate::views::lemma_strs_push;

    let ghost e = indexed_entries(*m);
    let mut v: Vec<String> = Vec::new();
    let mut i: usize = 0;
    let n: usize = indexed_len(m);
    assert(crate::views::strs(v@) =~= values_of(e).take(0));
    while i < n
        invariant
            e == indexed_entries(*m),
            n == e.len(),
            i <= n,
            crate::views::strs(v@) == values_of(e).take(i as int),
        decreases n - i,
    {
        if let Some((_, s)) = indexed_at(m, i) {
            v.push(s.clone());
            assert(values_of(e).take(i + 1) =~= values_of(e).take(i as int).push(e[i as int].1));
        }
        i = i + 1;
    }
    assert(values_of(e).take(i as int) =~= values_of(e));
    v
}

/// The values of an associative array, in order.
pub(crate) fn assoc_values(m: &IndexMap<String, String>) -> (r: Vec<String>)
    ensures
        crate::views::strs(r@) == values_of(assoc_entries(*m)),
{
    broadcast use crate::views::lemma_strs_push;

    let ghost e = assoc_entries(*m);
    let mut v: Vec<String> = Vec::new();
    let mut i: usize = 0;
    let n: usize = assoc_len(m);
    assert(crate::views::strs(v@) =~= values_of(e).take(0));
    while i < n
        invariant
            e == assoc_entries(*m),
            n == e.len(),
            i <= n,
            crate::views::strs(v@) == values_of(e).take(i as int),
        decreases n - i,
    {
        if let Some((_, s)) = assoc_at(m, i) {
            v.push(s.clone());
            assert(values_of(e).take(i + 1) =~= values_of(e).take(i as int).push(e[i as int].1));
        }
        i = i + 1;
    }
    assert(values_of(e).take(i as int) =~= values_of(e));
    v
}

impl VarValue {
    /// The scalar form: a scalar itself, or an array's values with a space between them.
    pub fn as_scalar(&self) -> (r: String)
        ensures
            r@ == self@.scalar(),
    {
        proof {
            reveal_strlit(" ");
            assert(" "@ =~= seq![' ']);
        }
        match self {
            VarValue::Scalar(s) => s.clone(),
            VarValue::IndexedArray(m) => crate::text::join(&indexed_values(m), " "),
            VarValue::AssocArray(m) => crate::text::join(&assoc_values(m), " "),
        }
    }
}

impl Clone for VarValue {
    fn clone(&self) -> (r: VarValue)
        ensures
            r@ == self@,
    {
        match self {
            VarValue::Scalar(s) => VarValue::Scalar(s.clone()),
            VarValue::IndexedArray(m) => VarValue::IndexedArray(indexed_clone(m)),
            VarValue::AssocArray(m) => VarValue::AssocArray(assoc_clone(m)),
        }
    }
}

impl Clone for ShellVar {
    fn clone(&self) -> (r: ShellVar)
        ensures
            r@ == self@,
    {
        ShellVar {
            value: self.value.clone(),
            exported: self.exported,
            readonly: self.readonly,
            integer: self.integer,
            nameref: self.nameref,
        }
    }
}

impl Clone for ShellEnv {
    fn clone(&self) -> (r: ShellEnv)
        ensures
            r@ == self@,
    {
        let mut scopes: Vec<IndexMap<String, ShellVar>> = Vec::new();
        let mut i: usize = 0;
        while i < self.scopes.len()
            invariant
                i <= self.scopes@.len(),
                scopes@.len() == i,
                forall|k: int|
                    0 <= k < i ==> scope_entries(#[trigger] scopes@[k]) == scope_entries(
                        self.scopes@[k],
                    ),
            decreases self.scopes@.len() - i,
        {
            scopes.push(scope_clone(&self.scopes[i]));
            i = i + 1;
        }
        let r = ShellEnv { scopes };
        assert(r@ =~= self@);
        r
    }
}

impl ShellVar {
    /// A scalar variable without attributes.
    pub fn scalar(value: String) -> (r: ShellVar)
        ensures
            r@ == plain_var(ValueView::Scalar(value@)),
    {
        ShellVar {
            value: VarValue::Scalar(value),
            exported: false,
            readonly: false,
            integer: false,
            nameref: false,
        }
    }
}

/// A variable without attributes.
pub open spec fn plain_var(value: ValueView) -> VarView {
    VarView { value, exported: false, readonly: false, integer: false, nameref: false }
}

/// The scopes of an environment, the global one first.
pub type EnvView = Seq<Seq<(Seq<char>, VarView)>>;

/// The shell environment: a stack of variable scopes.
#[derive(Debug)]
pub struct ShellEnv {
    pub scopes: Vec<IndexMap<String, ShellVar>>,
}

impl View for ShellEnv {
    type V = EnvView;

    open spec fn view(&self) -> EnvView {
        self.scopes@.map_values(|m: IndexMap<String, ShellVar>| scope_entries(m))
    }
}

/// The innermost scope, counted from the global one, that has the name; `-1` for none.
pub open spec fn scope_of(env: EnvView, name: Seq<char>) -> int
    decreases env.len(),
{
    if env.len() == 0 {
        -1
    } else if has_key(env.last(), name) {
        env.len() - 1
    } else {
        scope_of(env.drop_last(), name)
    }
}

/// The variable that a name stands for: that of the innermost scope that has it.
pub open spec fn lookup(env: EnvView, name: Seq<char>) -> Option<VarView> {
    if scope_of(env, name) >= 0 {
        value_of(env[scope_of(env, name)], name)
    } else {
        None
    }
}

/// The environment after `name` was given the variable `v` in the innermost scope.
pub open spec fn env_set(env: EnvView, name: Seq<char>, v: VarView) -> EnvView {
    if env.len() == 0 {
        env
    } else {
        env.drop_last().push(put(env.last(), name, v))
    }
}

/// The environment after the variable that `name` stands for became `v`, in its own scope.
pub open spec fn env_update(env: EnvView, name: Seq<char>, v: VarView) -> EnvView {
    let i = scope_of(env, name);
    env.update(i, put(env[i], name, v))
}

/// The environment after `name` was taken out of the innermost scope.
pub open spec fn env_remove(env: EnvView, name: Seq<char>) -> EnvView {
    if env.len() == 0 {
        env
    } else {
        env.drop_last().push(drop_key(env.last(), name))
    }
}

/// The exported variables of the first `n` scopes, as `result` grows by them in order.
pub open spec fn exported_in(
    scope: Seq<(Seq<char>, VarView)>,
    n: int,
    result: Seq<(Seq<char>, Seq<char>)>,
) -> Seq<(Seq<char>, Seq<char>)>
    decreases n,
{
    if n <= 0 {
        result
    } else {
        let before = exported_in(scope, n - 1, result);
        if scope[n - 1].1.exported {
            put(before, scope[n - 1].0, scope[n - 1].1.value.scalar())
        } else {
            before
        }
    }
}

/// The exported variables of the first `n` scopes in the order of their first occurrence,
/// each with the value of the innermost scope that exports it.
pub open spec fn exported_upto(env: EnvView, n: int) -> Seq<(Seq<char>, Seq<char>)>
    decreases n,
{
    if n <= 0 {
        Seq::empty()
    } else {
        exported_in(env[n - 1], env[n - 1].len() as int, exported_upto(env, n - 1))
    }
}

pub proof fn lemma_scope_of(env: EnvView, name: Seq<char>)
    ensures
        -1 <= scope_of(env, name) < env.len(),
        scope_of(env, name) >= 0 ==> has_key(env[scope_of(env, name)], name),
        forall|i: int|
            scope_of(env, name) < i < env.len() ==> !has_key(#[trigger] env[i], name),
    decreases env.len(),
{
    if env.len() > 0 && !has_key(env.last(), name) {
        lemma_scope_of(env.drop_last(), name);
        assert forall|i: int| scope_of(env, name) < i < env.len() implies !has_key(
            #[trigger] env[i],
            name,
        ) by {
            if i < env.len() - 1 {
                assert(env.drop_last()[i] == env[i]);
            }
        }
    }
}

pub proof fn lemma_scope_of_is(env: EnvView, name: Seq<char>, i: int)
    requires
        -1 <= i < env.len(),
        i >= 0 ==> has_key(env[i], name),
        forall|j: int| i < j < env.len() ==> !has_key(#[trigger] env[j], name),
    ensures
        scope_of(env, name) == i,
{
    lemma_scope_of(env, name);
    let m = scope_of(env, name);
    if m > i {
        assert(!has_key(env[m], name));
    }
    if i > m {
        assert(!has_key(env[i], name));
    }
}

/// A name set in the innermost scope stands for what it was set to, and every other name for
/// what it stood for before.
pub proof fn law_set_then_lookup(env: EnvView, name: Seq<char>, v: VarView)
    requires
        env.len() > 0,
    ensures
        lookup(env_set(env, name, v), name) == Some(v),
        forall|other: Seq<char>|
            other != name ==> #[trigger] lookup(env_set(env, name, v), other) == lookup(env, other),
{
    let after = env_set(env, name, v);
    let n = env.len() - 1;
    crate::entries::lemma_put(env.last(), name, v);
    lemma_scope_of_is(after, name, n);
    assert forall|other: Seq<char>| other != name implies #[trigger] lookup(after, other) == lookup(
        env,
        other,
    ) by {
        lemma_scope_of(env, other);
        let i = scope_of(env, other);
        assert(value_of(after.last(), other) == value_of(env.last(), other));
        assert(has_key(after.last(), other) == has_key(env.last(), other));
        assert forall|j: int| i < j < after.len() implies !has_key(#[trigger] after[j], other) by {
            if j < n {
                assert(after[j] == env[j]);
            } else {
                assert(!has_key(env[n], other));
            }
        }
        lemma_scope_of_is(after, other, i);
    }
}

/// The environment after variables were set one after the other.
pub open spec fn env_set_all(env: EnvView, sets: Seq<(Seq<char>, VarView)>) -> EnvView
    decreases sets.len(),
{
    if sets.len() == 0 {
        env
    } else {
        env_set(env_set_all(env, sets.drop_last()), sets.last().0, sets.last().1)
    }
}

/// What a scope did to the variables is undone when it is popped: after a scope was pushed
/// and any number of variables were set in it, popping it restores the environment.
pub proof fn law_scope_restores(env: EnvView, sets: Seq<(Seq<char>, VarView)>)
    ensures
        env_set_all(env.push(Seq::empty()), sets).len() == env.len() + 1,
        env_set_all(env.push(Seq::empty()), sets).drop_last() == env,
    decreases sets.len(),
{
    assert(env.push(Seq::<(Seq<char>, VarView)>::empty()).drop_last() =~= env);
    if sets.len() > 0 {
        law_scope_restores(env, sets.drop_last());
        let before = env_set_all(env.push(Seq::empty()), sets.drop_last());
        assert(env_set(before, sets.last().0, sets.last().1).drop_last() =~= before.drop_last());
    }
}

impl ShellEnv {
    /// An environment with an empty global scope.
    pub fn new() -> (r: ShellEnv)
        ensures
            r@ == seq![Seq::<(Seq<char>, VarView)>::empty()],
    {
        let mut scopes: Vec<IndexMap<String, ShellVar>> = Vec::new();
        scopes.push(scope_new());
        let r = ShellEnv { scopes };
        assert(r@ =~= seq![Seq::<(Seq<char>, VarView)>::empty()]);
        r
    }

    /// The position of the innermost scope that has a name.
    fn find_scope(&self, name: &str) -> (r: Option<usize>)
        ensures
            match r {
                Some(i) => scope_of(self@, name@) == i && i < self@.len(),
                None => scope_of(self@, name@) == -1,
            },
    {
        let mut i: usize = self.scopes.len();
        while i > 0
            invariant
                i <= self@.len(),
                forall|j: int| i <= j < self@.len() ==> !has_key(#[trigger] self@[j], name@),
            decreases i,
        {
            assert(self@[i - 1] == scope_entries(self.scopes@[i - 1]));
            if scope_get(&self.scopes[i - 1], name).is_some() {
                proof {
                    lemma_scope_of_is(self@, name@, i - 1);
                }
                return Some(i - 1);
            }
            i = i - 1;
        }
        proof {
            lemma_scope_of_is(self@, name@, -1);
        }
        None
    }

    /// Looks up a variable by name, from the innermost scope outward.
    pub fn get(&self, name: &str) -> (r: Option<&ShellVar>)
        ensures
            match r {
                Some(v) => lookup(self@, name@) == Some(v@),
                None => lookup(self@, name@) is None,
            },
    {
        match self.find_scope(name) {
            Some(i) => {
                proof {
                    lemma_scope_of(self@, name@);
                }
                assert(self@[i as int] == scope_entries(self.scopes@[i as int]));
                scope_get(&self.scopes[i], name)
            },
            None => None,
        }
    }

    /// A mutable reference to the variable that a name stands for.
    pub fn get_mut(&mut self, name: &str) -> (r: Option<&mut ShellVar>)
        ensures
            match r {
                Some(v) => lookup(old(self)@, name@) == Some((*v)@) && final(self)@ == env_update(
                    old(self)@,
                    name@,
                    (*final(v))@,
                ),
                None => lookup(old(self)@, name@) is None && final(self)@ == old(self)@,
            },
    {
        match self.find_scope(name) {
            Some(i) => {
                proof {
                    lemma_scope_of(self@, name@);
                }
                assert(self@[i as int] == scope_entries(self.scopes@[i as int]));
                scope_get_mut(&mut self.scopes[i], name)
            },
            None => None,
        }
    }

    /// Sets a variable in the innermost scope.
    pub fn set(&mut self, name: String, var: ShellVar)
        ensures
            final(self)@ == env_set(old(self)@, name@, var@),
    {
        let n: usize = self.scopes.len();
        if n > 0 {
            assert(self@.last() == scope_entries(self.scopes@[n - 1]));
            scope_insert(&mut self.scopes[n - 1], name, var);
            assert(self@ =~= env_set(old(self)@, name@, var@));
        }
    }

    /// Pushes a new scope, as for a function call.
    pub fn push_scope(&mut self)
        ensures
            final(self)@ == old(self)@.push(Seq::empty()),
    {
        self.scopes.push(scope_new());
        assert(self@ =~= old(self)@.push(Seq::empty()));
    }

    /// Pops the innermost scope, unless it is the global one.
    pub fn pop_scope(&mut self) -> (r: Option<IndexMap<String, ShellVar>>)
        ensures
            match r {
                Some(m) => old(self)@.len() > 1 && final(self)@ == old(self)@.drop_last()
                    && scope_entries(m) == old(self)@.last(),
                None => old(self)@.len() <= 1 && final(self)@ == old(self)@,
            },
    {
        if self.scopes.len() > 1 {
            let r = self.scopes.pop();
            assert(self@ =~= old(self)@.drop_last());
            r
        } else {
            None
        }
    }

    /// Removes a variable from the innermost scope.
    pub fn remove(&mut self, name: &str) -> (r: Option<ShellVar>)
        ensures
            final(self)@ == env_remove(old(self)@, name@),
            final(self)@.len() > 0 ==> !has_key(final(self)@.last(), name@),
            match r {
                Some(v) => old(self)@.len() > 0 && value_of(old(self)@.last(), name@) == Some(v@),
                None => old(self)@.len() > 0 ==> value_of(old(self)@.last(), name@) is None,
            },
    {
        let n: usize = self.scopes.len();
        if n > 0 {
            assert(self@.last() == scope_entries(self.scopes@[n - 1]));
            let r = scope_remove(&mut self.scopes[n - 1], name);
            assert(self@ =~= env_remove(old(self)@, name@));
            r
        } else {
            None
        }
    }

    /// The exported variables of all scopes, with the innermost value of each.
    pub fn exported_vars(&self) -> (r: IndexMap<String, String>)
        ensures
            assoc_entries(r) == exported_upto(self@, self@.len() as int),
    {
        let mut result = assoc_new();
        let mut i: usize = 0;
        while i < self.scopes.len()
            invariant
                i <= self@.len(),
                assoc_entries(result) == exported_upto(self@, i as int),
            decreases self@.len() - i,
        {
            let scope = &self.scopes[i];
            let ghost e = scope_entries(*scope);
            assert(self@[i as int] == e);
            let n: usize = scope_len(scope);
            let mut k: usize = 0;
            while k < n
                invariant
                    k <= n,
                    n == e.len(),
                    e == scope_entries(*scope),
                    assoc_entries(result) == exported_in(
                        e,
                        k as int,
                        exported_upto(self@, i as int),
                    ),
                decreases n - k,
            {
                if let Some((name, var)) = scope_at(scope, k) {
                    if var.exported {
                        assoc_insert(&mut result, name.clone(), var.value.as_scalar());
                    }
                }
                k = k + 1;
            }
            i = i + 1;
        }
        result
    }
}

impl Default for ShellEnv {
    fn default() -> (r: ShellEnv)
        ensures
            r@ == seq![Seq::<(Seq<char>, VarView)>::empty()],
    {
        ShellEnv::new()
    }
}

} // verus!
