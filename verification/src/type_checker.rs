//! The static type checker: type inference by unification over a store of
//! types, with scoped environments of variables.
use vstd::prelude::*;
use std::collections::HashMap;
use vstd::slice::{slice_subrange, slice_to_vec};
use crate::ast::{Expression, MatchCase, Pattern, TypeAnn, unwrap_loc, spec_unwrap_loc};
use crate::error_reporter::Diagnostic;
use crate::assoc::{assoc, assoc_prefer, lemma_assoc_push_same, distinct_names, names, assoc_position, assoc_insert, lemma_assoc_at, lemma_assoc_none, lemma_assoc_some, lemma_assoc_some_exists, lemma_assoc_push, lemma_assoc_same_names};
use crate::text::{decimal_string, join2, join3, owned, spec_decimal, str_eq, number_text_index};

verus! {

broadcast use vstd::std_specs::hash::group_hash_axioms;

/// The index of a type in the checker's store.
#[derive(Clone, Copy, Debug, PartialEq, Eq, Hash, Structural)]
pub struct TypeIdx(pub usize);

/// The index of an environment in the checker's store.
#[derive(Clone, Copy, Debug, PartialEq, Eq, Hash, Structural)]
pub struct EnvIdx(pub usize);

/// A type. A record (`Hash`) lists its fields, each name at most once.
#[derive(Debug)]
pub enum Type {
    Var(usize),
    Number,
    String,
    Atom,
    Array(TypeIdx),
    Hash(Vec<(String, TypeIdx)>),
    Function { params: Vec<TypeIdx>, ret: TypeIdx },
    Tuple(Vec<TypeIdx>),
    Any,
}

/// A scope: the variables it defines (each name once), with their types and
/// whether they are constant, and the scope around it.
#[derive(Debug)]
pub struct TypeEnv {
    pub store: Vec<(String, (TypeIdx, bool))>,
    pub outer: Option<EnvIdx>,
}

/// The indices that a type refers to.
pub open spec fn child_indices(t: Type) -> Seq<TypeIdx> {
    match t {
        Type::Array(i) => seq![i],
        Type::Hash(f) => f@.map_values(|p: (String, TypeIdx)| p.1),
        Type::Function { params, ret } => params@.push(ret),
        Type::Tuple(e) => e@,
        _ => seq![],
    }
}

/// The variable of a type variable.
pub open spec fn var_id(t: Type) -> Option<usize> {
    match t {
        Type::Var(id) => Some(id),
        _ => None,
    }
}

/// A type whose indices are below `n`, and whose record fields are distinct.
pub open spec fn type_wf(t: Type, n: nat) -> bool {
    &&& forall|i: int| 0 <= i < child_indices(t).len() ==> (child_indices(t)[i].0 as nat) < n
    &&& match t {
        Type::Hash(f) => distinct_names(f@),
        _ => true,
    }
}

/// An environment whose types are below `n`, whose names are distinct and
/// whose outer scope comes before it.
pub open spec fn env_wf(e: TypeEnv, self_idx: int, n: nat) -> bool {
    &&& distinct_names(e.store@)
    &&& forall|i: int| 0 <= i < e.store@.len() ==> (e.store@[i].1.0.0 as nat) < n
    &&& match e.outer {
        Some(o) => (o.0 as int) < self_idx,
        None => true,
    }
}


/// How many entries are `false`.
pub open spec fn count_false(s: Seq<bool>) -> nat
    decreases s.len(),
{
    if s.len() == 0 {
        0
    } else {
        count_false(s.drop_last()) + if s.last() { 0nat } else { 1nat }
    }
}

/// Marking an unmarked entry lowers the count by one.
pub proof fn lemma_count_false_update(s: Seq<bool>, i: int)
    requires
        0 <= i < s.len(),
        !s[i],
    ensures
        count_false(s.update(i, true)) + 1 == count_false(s),
    decreases s.len(),
{
    let t = s.update(i, true);
    if i == s.len() - 1 {
        assert(t.drop_last() =~= s.drop_last());
    } else {
        assert(t.drop_last() =~= s.drop_last().update(i, true));
        lemma_count_false_update(s.drop_last(), i);
    }
}

/// A vector of `n` entries, all `false`.
fn all_false(n: usize) -> (v: Vec<bool>)
    ensures
        v@.len() == n,
        forall|i: int| 0 <= i < n ==> !v@[i],
{
    let mut v: Vec<bool> = Vec::new();
    while v.len() < n
        invariant
            v@.len() <= n,
            forall|i: int| 0 <= i < v@.len() ==> !v@[i],
        decreases n - v@.len(),
    {
        v.push(false);
    }
    v
}


/// The variant of a type, with the length of a tuple or of a parameter list:
/// what no operation of the checker changes once a type is stored.
pub open spec fn shape(t: Type) -> (int, int) {
    match t {
        Type::Var(id) => (0, id as int),
        Type::Number => (1, 0),
        Type::String => (2, 0),
        Type::Atom => (3, 0),
        Type::Array(_) => (4, 0),
        Type::Hash(_) => (5, 0),
        Type::Function { params, .. } => (6, params@.len() as int),
        Type::Tuple(e) => (7, e@.len() as int),
        Type::Any => (8, 0),
    }
}

/// What the form of `e` says of the type that checking gives it. A binding,
/// an assignment, a `return`, an `if` with an alternative and a non-empty
/// block have the type of the expression whose value they give.
pub open spec fn fits_form(t: Type, e: Expression) -> bool
    decreases e,
{
    match e {
        Expression::Loc { expr, .. } => fits_form(t, *expr),
        Expression::Let { value, .. } => fits_form(t, *value),
        Expression::Const { value, .. } => fits_form(t, *value),
        Expression::Assign { value, .. } => fits_form(t, *value),
        Expression::Return(inner) => fits_form(t, *inner),
        Expression::IndexAssign { value, .. } => fits_form(t, *value),
        Expression::Number(_) => t is Number,
        Expression::StringLiteral(_) => t is String,
        Expression::Atom(_) => t is Atom,
        Expression::Array(_) => t is Array,
        Expression::Hash(_) => t is Hash,
        Expression::Tuple(es) => t matches Type::Tuple(ts) && ts@.len() == es@.len(),
        Expression::Function { parameters, .. } => t matches Type::Function { params, .. }
            && params@.len() == parameters@.len(),
        Expression::Prefix { operator, .. } => (operator@ == "-"@ ==> t is Number) && (operator@ == "!"@ ==> t is Atom),
        Expression::Infix { operator, .. } =>
            ((operator@ == "-"@ || operator@ == "*"@ || operator@ == "/"@) ==> t is Number)
            && ((operator@ == "=="@ || operator@ == "!="@ || operator@ == ">"@ || operator@ == "<"@) ==> t is Atom),
        Expression::If { consequence, alternative, .. } => match alternative {
            None => t is Any,
            Some(_) => fits_form(t, *consequence),
        },
        Expression::Block(es, _) => if es@.len() == 0 {
            t is Atom
        } else {
            fits_form(t, es@[es@.len() - 1])
        },
        Expression::Loop { .. } | Expression::While { .. } | Expression::For { .. }
            | Expression::ForHash { .. } => t is Atom,
        Expression::Question(_) | Expression::Import(_) | Expression::Break(_) | Expression::Continue => t is Any,
        _ => true,
    }
}

/// The operators that an infix expression may use.
pub open spec fn known_infix(op: Seq<char>) -> bool {
    op == "+"@ || op == "-"@ || op == "*"@ || op == "/"@ || op == "=="@ || op == "!="@ || op == ">"@ || op == "<"@
}

/// Whether a type fits an expression's form depends on its shape alone.
pub proof fn lemma_fits_shape(t1: Type, t2: Type, e: Expression)
    requires
        shape(t1) == shape(t2),
    ensures
        fits_form(t1, e) == fits_form(t2, e),
    decreases e,
{
    match e {
        Expression::Loc { expr, .. } => lemma_fits_shape(t1, t2, *expr),
        Expression::Let { value, .. } => lemma_fits_shape(t1, t2, *value),
        Expression::Const { value, .. } => lemma_fits_shape(t1, t2, *value),
        Expression::Assign { value, .. } => lemma_fits_shape(t1, t2, *value),
        Expression::Return(inner) => lemma_fits_shape(t1, t2, *inner),
        Expression::IndexAssign { value, .. } => lemma_fits_shape(t1, t2, *value),
        Expression::If { consequence, .. } => lemma_fits_shape(t1, t2, *consequence),
        Expression::Block(es, _) => if es@.len() > 0 {
            lemma_fits_shape(t1, t2, es@[es@.len() - 1]);
        },
        _ => {},
    }
}

/// Location wrappers do not change what a type must fit.
pub proof fn lemma_fits_unwrap(t: Type, e: Expression)
    ensures
        fits_form(t, spec_unwrap_loc(e)) == fits_form(t, e),
    decreases e,
{
    if let Expression::Loc { expr, .. } = e {
        lemma_fits_unwrap(t, *expr);
    }
}

/// The operator texts differ from one another.
proof fn lemma_operators_differ()
    ensures
        "+"@ != "-"@,
        "+"@ != "*"@,
        "+"@ != "/"@,
        "+"@ != "=="@,
        "+"@ != "!="@,
        "+"@ != ">"@,
        "+"@ != "<"@,
        "+"@ != "!"@,
        "-"@ != "*"@,
        "-"@ != "/"@,
        "-"@ != "=="@,
        "-"@ != "!="@,
        "-"@ != ">"@,
        "-"@ != "<"@,
        "-"@ != "!"@,
        "*"@ != "/"@,
        "*"@ != "=="@,
        "*"@ != "!="@,
        "*"@ != ">"@,
        "*"@ != "<"@,
        "*"@ != "!"@,
        "/"@ != "=="@,
        "/"@ != "!="@,
        "/"@ != ">"@,
        "/"@ != "<"@,
        "/"@ != "!"@,
        "=="@ != "!="@,
        "=="@ != ">"@,
        "=="@ != "<"@,
        "=="@ != "!"@,
        "!="@ != ">"@,
        "!="@ != "<"@,
        "!="@ != "!"@,
        ">"@ != "<"@,
        ">"@ != "!"@,
        "<"@ != "!"@,
{
    reveal_strlit("+");
    reveal_strlit("-");
    reveal_strlit("*");
    reveal_strlit("/");
    reveal_strlit("==");
    reveal_strlit("!=");
    reveal_strlit(">");
    reveal_strlit("<");
    reveal_strlit("!");
    assert("+"@.len() == 1);
    assert("-"@.len() == 1);
    assert("*"@.len() == 1);
    assert("/"@.len() == 1);
    assert("=="@.len() == 2);
    assert("!="@.len() == 2);
    assert(">"@.len() == 1);
    assert("<"@.len() == 1);
    assert("!"@.len() == 1);
    assert("+"@[0] == '+');
    assert("-"@[0] == '-');
    assert("*"@[0] == '*');
    assert("/"@[0] == '/');
    assert("=="@[0] == '=');
    assert("!="@[0] == '!');
    assert(">"@[0] == '>');
    assert("<"@[0] == '<');
    assert("!"@[0] == '!');
    assert("=="@[1] == '=');
    assert("!="@[1] == '=');
}

/// Two types that the unifier takes as the same base type.
pub open spec fn same_base(a: Type, b: Type) -> bool {
    (a is Number && b is Number) || (a is String && b is String) || (a is Atom && b is Atom)
}

/// Two types that no rule of the unifier relates: the unifier reports them
/// as a mismatch.
pub open spec fn mismatched(a: Type, b: Type) -> bool {
    &&& !same_base(a, b)
    &&& !(a is Var) && !(b is Var)
    &&& !(a is Array && b is Array)
    &&& !(a is Hash && b is Hash)
    &&& !(a is Function && b is Function)
    &&& !(a is Tuple && b is Tuple)
    &&& !(a is Any) && !(b is Any)
}

/// The type of a literal: a number, a string or an atom.
pub open spec fn literal_type(e: Expression) -> Option<Type> {
    match spec_unwrap_loc(e) {
        Expression::Number(_) => Some(Type::Number),
        Expression::StringLiteral(_) => Some(Type::String),
        Expression::Atom(_) => Some(Type::Atom),
        _ => None,
    }
}

/// The base type that an annotation names, if it names one.
pub open spec fn ann_base(a: TypeAnn) -> Option<Type> {
    match a {
        TypeAnn::Number => Some(Type::Number),
        TypeAnn::String => Some(Type::String),
        TypeAnn::Atom => Some(Type::Atom),
        _ => None,
    }
}

/// A pattern that only binds: a wildcard or a name.
pub open spec fn binding_pattern(p: Pattern) -> bool {
    p is Wildcard || p is Identifier
}

/// Every name that the patterns bind.
pub open spec fn bound_names(ps: Seq<Pattern>, c: &TypeChecker, env: EnvIdx) -> bool {
    forall|k: int| 0 <= k < ps.len() ==> (#[trigger] ps[k] matches Pattern::Identifier(n) ==> c.lookup(env, n@) is Some)
}

/// Each name that the patterns bind, where no later pattern binds it
/// again, stands in `env` for the root in `before` of the type at its
/// place, as a variable.
pub open spec fn bound_as(ps: Seq<Pattern>, ts: Seq<TypeIdx>, before: &TypeChecker, c: &TypeChecker, env: EnvIdx) -> bool {
    forall|k: int| 0 <= k < ps.len() ==> (#[trigger] ps[k] matches Pattern::Identifier(n) ==> (
        (forall|j: int| k < j < ps.len() ==> !(#[trigger] ps[j] matches Pattern::Identifier(m) && m@ == n@))
            ==> c.lookup(env, n@) == Some((before.root(ts[k]), false))))
}

/// Every expression of the list is a literal.
pub open spec fn literal_elements(es: Seq<Expression>) -> bool {
    forall|k: int| 0 <= k < es.len() ==> #[trigger] literal_type(es[k]) is Some
}

/// The first `k` expressions of the list are literals of type `t`.
pub open spec fn literals_fit(es: Seq<Expression>, t: Type, k: int) -> bool {
    forall|j: int| 0 <= j < k ==> #[trigger] literal_type(es[j]) == Some(t)
}

/// A number, string or atom type.
pub open spec fn is_base(t: Type) -> bool {
    t is Number || t is String || t is Atom
}

/// The name by which messages write a base type.
pub open spec fn base_name(t: Type) -> Seq<char> {
    match t {
        Type::Number => "Number"@,
        Type::String => "String"@,
        _ => "Atom"@,
    }
}

/// The refusal of two types that cannot be unified.
pub open spec fn mismatch_text(a: Type, b: Type) -> Seq<char> {
    "Type mismatch: cannot unify '"@ + base_name(a) + "' with '"@ + base_name(b) + "'"@
}

/// What checking `l op r` gives for literals of types `lt` and `rt`: `+`,
/// `==` and `!=` want two operands of one type (and `+` a number or a
/// string); the arithmetic and ordering operators want two numbers.
pub open spec fn literal_infix(op: Seq<char>, lt: Type, rt: Type, r: Result<TypeIdx, Diagnostic>) -> bool {
    if op == "+"@ || op == "=="@ || op == "!="@ {
        if lt != rt {
            r matches Err(d) && d.message@ == mismatch_text(lt, rt)
        } else if op == "+"@ && lt is Atom {
            r matches Err(d) && d.message@ == "Operator '+' is not supported for type '"@ + base_name(lt) + "'"@
        } else {
            r is Ok
        }
    } else if op == "-"@ || op == "*"@ || op == "/"@ || op == ">"@ || op == "<"@ {
        if !(lt is Number) {
            r matches Err(d) && d.message@ == mismatch_text(lt, Type::Number)
        } else if !(rt is Number) {
            r matches Err(d) && d.message@ == mismatch_text(rt, Type::Number)
        } else {
            r is Ok
        }
    } else {
        r is Err
    }
}

/// The base type that the operand `e` has before it is checked in `env`:
/// that of a literal, or that of the root of the type bound to a name.
pub open spec fn operand_base(c: TypeChecker, env: EnvIdx, e: Expression) -> Option<Type> {
    match literal_type(e) {
        Some(t) => Some(t),
        None => match e {
            Expression::Identifier(n) => match c.lookup(env, n@) {
                Some(entry) => if is_base(c.type_store()[c.root(entry.0).0 as int]) {
                    Some(c.type_store()[c.root(entry.0).0 as int])
                } else {
                    None
                },
                None => None,
            },
            _ => None,
        },
    }
}

/// Every expression of the list is a number literal.
pub open spec fn number_literals(es: Seq<Expression>) -> bool {
    forall|i: int| 0 <= i < es.len() ==> #[trigger] spec_unwrap_loc(es[i]) is Number
}

/// Every value of the record literal's pairs is a number literal.
pub open spec fn number_valued(ps: Seq<(String, Expression)>) -> bool {
    forall|i: int| 0 <= i < ps.len() ==> #[trigger] spec_unwrap_loc(ps[i].1) is Number
}

/// Every field name of `a` is also one of `b`'s.
pub open spec fn names_in(a: Seq<(String, TypeIdx)>, b: Seq<(String, TypeIdx)>) -> bool {
    forall|i: int| 0 <= i < a.len() ==> assoc(b, #[trigger] a[i].0@) is Some
}

/// The record at `t` in `after` holds the fields of `base`, and those of
/// `extra` whose names `base` lacks; every other type is as in `before`.
pub open spec fn widened(before: &TypeChecker, after: &TypeChecker, t: TypeIdx,
    base: Seq<(String, TypeIdx)>, extra: Seq<(String, TypeIdx)>) -> bool {
    &&& after.type_store().len() == before.type_store().len()
    &&& after.type_store()[t.0 as int] matches Type::Hash(m)
        && forall|name: Seq<char>| #[trigger] assoc(m@, name) == assoc_prefer(base, extra, name)
    &&& forall|i: int| 0 <= i < before.type_store().len() && i != t.0
        ==> #[trigger] after.type_store()[i] == before.type_store()[i]
}

/// A record's field names as the unifier's messages write them.
pub open spec fn field_set_text(f: Seq<(String, TypeIdx)>) -> Seq<char> {
    "{"@ + quoted_names(f.map_values(|p: (String, TypeIdx)| p.0@)) + "}"@
}

/// What unifying two records, two functions or two tuples gives, as far as
/// it is settled before any of their parts is unified: records whose field
/// names neither include the other's, and functions or tuples of different
/// sizes, are refused with nothing changed; tuples of one size always unify.
pub open spec fn structured_outcome(ta: Type, tb: Type, unchanged: bool, r: Result<(), String>) -> bool {
    match (ta, tb) {
        (Type::Hash(f1), Type::Hash(f2)) => !names_in(f1@, f2@) && !names_in(f2@, f1@) ==> unchanged
            && (r matches Err(m) && m@ == "Record type mismatch: incompatible fields. Got "@
                + field_set_text(f1@) + ", expected "@ + field_set_text(f2@)),
        (Type::Function { params: p1, .. }, Type::Function { params: p2, .. }) => p1@.len() != p2@.len()
            ==> unchanged && (r matches Err(m) && m@ == "Function arity mismatch: expected "@
                + spec_decimal(p1@.len()) + " arguments, got "@ + spec_decimal(p2@.len())),
        (Type::Tuple(e1), Type::Tuple(e2)) => if e1@.len() != e2@.len() {
            unchanged && (r matches Err(m) && m@ == "Tuple size mismatch: expected size "@
                + spec_decimal(e1@.len()) + ", got "@ + spec_decimal(e2@.len()))
        } else {
            r is Ok
        },
        _ => true,
    }
}

/// A copy of a list of indices.
fn copy_indices(v: &Vec<TypeIdx>) -> (r: Vec<TypeIdx>)
    ensures
        r@ == v@,
{
    let mut r: Vec<TypeIdx> = Vec::new();
    let mut i: usize = 0;
    while i < v.len()
        invariant
            i <= v@.len(),
            r@ == v@.take(i as int),
        decreases v@.len() - i,
    {
        r.push(v[i]);
        i += 1;
        assert(r@ =~= v@.take(i as int));
    }
    assert(v@.take(v@.len() as int) =~= v@);
    r
}

/// A copy of a list of record fields.
fn copy_fields(v: &Vec<(String, TypeIdx)>) -> (r: Vec<(String, TypeIdx)>)
    ensures
        r@ == v@,
{
    let mut r: Vec<(String, TypeIdx)> = Vec::new();
    let mut i: usize = 0;
    while i < v.len()
        invariant
            i <= v@.len(),
            r@ == v@.take(i as int),
        decreases v@.len() - i,
    {
        r.push((v[i].0.clone(), v[i].1));
        i += 1;
        assert(r@ =~= v@.take(i as int));
    }
    assert(v@.take(v@.len() as int) =~= v@);
    r
}

/// Two types that hold the same things.
pub open spec fn same_type(a: Type, b: Type) -> bool {
    match (a, b) {
        (Type::Var(x), Type::Var(y)) => x == y,
        (Type::Number, Type::Number) => true,
        (Type::String, Type::String) => true,
        (Type::Atom, Type::Atom) => true,
        (Type::Any, Type::Any) => true,
        (Type::Array(x), Type::Array(y)) => x == y,
        (Type::Hash(f), Type::Hash(g)) => f@ == g@,
        (Type::Function { params: p, ret: r }, Type::Function { params: q, ret: t }) => p@ == q@ && r == t,
        (Type::Tuple(e), Type::Tuple(g)) => e@ == g@,
        _ => false,
    }
}

/// The types of the fields, in order.
fn field_values(f: &Vec<(String, TypeIdx)>) -> (r: Vec<TypeIdx>)
    ensures
        r@ == f@.map_values(|p: (String, TypeIdx)| p.1),
{
    let mut r: Vec<TypeIdx> = Vec::new();
    let mut i: usize = 0;
    while i < f.len()
        invariant
            i <= f@.len(),
            r@ == f@.take(i as int).map_values(|p: (String, TypeIdx)| p.1),
        decreases f@.len() - i,
    {
        r.push(f[i].1);
        i += 1;
        assert(r@ =~= f@.take(i as int).map_values(|p: (String, TypeIdx)| p.1));
    }
    assert(f@.take(f@.len() as int) =~= f@);
    r
}

/// A copy of a type.
fn copy_type(t: &Type) -> (r: Type)
    ensures
        same_type(r, *t),
        child_indices(r) == child_indices(*t),
        shape(r) == shape(*t),
        var_id(r) == var_id(*t),
{
    match t {
        Type::Var(id) => Type::Var(*id),
        Type::Number => Type::Number,
        Type::String => Type::String,
        Type::Atom => Type::Atom,
        Type::Any => Type::Any,
        Type::Array(i) => Type::Array(*i),
        Type::Hash(f) => Type::Hash(copy_fields(f)),
        Type::Function { params, ret } => Type::Function { params: copy_indices(params), ret: *ret },
        Type::Tuple(e) => Type::Tuple(copy_indices(e)),
    }
}


/// Whether every name of `a` is also a name of `b`.
fn names_within(a: &Vec<(String, TypeIdx)>, b: &Vec<(String, TypeIdx)>) -> (r: bool)
    ensures
        r == (forall|i: int| 0 <= i < a@.len() ==> assoc(b@, #[trigger] a@[i].0@) is Some),
{
    let mut i: usize = 0;
    while i < a.len()
        invariant
            i <= a@.len(),
            forall|k: int| 0 <= k < i ==> assoc(b@, #[trigger] a@[k].0@) is Some,
        decreases a@.len() - i,
    {
        if assoc_position(b, a[i].0.as_str()).is_none() {
            return false;
        }
        i += 1;
    }
    true
}

/// The fields of `base`, then those of `extra` whose names `base` lacks.
fn merge_fields(base: &Vec<(String, TypeIdx)>, extra: &Vec<(String, TypeIdx)>, Ghost(n): Ghost<nat>) -> (r: Vec<(String, TypeIdx)>)
    requires
        distinct_names(base@),
        distinct_names(extra@),
        forall|k: int| 0 <= k < base@.len() ==> (#[trigger] base@[k].1.0 as nat) < n,
        forall|k: int| 0 <= k < extra@.len() ==> (#[trigger] extra@[k].1.0 as nat) < n,
    ensures
        distinct_names(r@),
        forall|k: int| 0 <= k < r@.len() ==> (#[trigger] r@[k].1.0 as nat) < n,
        forall|name: Seq<char>| #[trigger] assoc(r@, name) == assoc_prefer(base@, extra@, name),
{
    let mut r = copy_fields(base);
    let mut i: usize = 0;
    while i < extra.len()
        invariant
            i <= extra@.len(),
            distinct_names(r@),
            distinct_names(extra@),
            forall|name: Seq<char>| #[trigger] assoc(r@, name) == assoc_prefer(base@, extra@.take(i as int), name),
            forall|k: int| 0 <= k < r@.len() ==> (#[trigger] r@[k].1.0 as nat) < n,
            forall|k: int| 0 <= k < extra@.len() ==> (#[trigger] extra@[k].1.0 as nat) < n,
        decreases extra@.len() - i,
    {
        if assoc_position(&r, extra[i].0.as_str()).is_none() {
            let ghost before = r@;
            proof {
                assert forall|k: int| 0 <= k < before.len() implies before[k].0@ != extra@[i as int].0@ by {
                    if before[k].0@ == extra@[i as int].0@ {
                        lemma_assoc_some_exists(before, extra@[i as int].0@, k);
                    }
                }
            }
            r.push((extra[i].0.clone(), extra[i].1));
            proof {
                let e = extra@[i as int];
                assert(r@ == before.push(e));
                assert forall|k: int| 0 <= k < r@.len() implies (#[trigger] r@[k].1.0 as nat) < n by {
                    if k < before.len() {
                        assert(r@[k] == before[k]);
                    } else {
                        assert(r@[k] == e);
                    }
                }
                assert(extra@.take(i + 1) =~= extra@.take(i as int).push(e));
                assert forall|name: Seq<char>| #[trigger] assoc(r@, name)
                    == assoc_prefer(base@, extra@.take(i + 1), name) by {
                    if name == e.0@ {
                        lemma_assoc_push_same(before, e);
                        lemma_assoc_push_same(extra@.take(i as int), e);
                    } else {
                        lemma_assoc_push(before, e, name);
                        lemma_assoc_push(extra@.take(i as int), e, name);
                    }
                }
            }
        } else {
            proof {
                let e = extra@[i as int];
                assert(extra@.take(i + 1) =~= extra@.take(i as int).push(e));
                assert forall|name: Seq<char>| #[trigger] assoc(r@, name)
                    == assoc_prefer(base@, extra@.take(i + 1), name) by {
                    if name == e.0@ {
                        lemma_assoc_push_same(extra@.take(i as int), e);
                    } else {
                        lemma_assoc_push(extra@.take(i as int), e, name);
                    }
                }
            }
        }
        i += 1;
    }
    proof { assert(extra@.take(extra@.len() as int) =~= extra@); }
    r
}

/// The names of the fields as a set is written by `{:?}`: `{"a", "b"}`.
fn debug_name_set(f: &Vec<(String, TypeIdx)>) -> (s: String)
    ensures
        s@ == "{"@ + quoted_names(f@.map_values(|p: (String, TypeIdx)| p.0@)) + "}"@,
{
    let mut out = owned("{");
    let mut i: usize = 0;
    while i < f.len()
        invariant
            i <= f@.len(),
            out@ == "{"@ + quoted_names(f@.take(i as int).map_values(|p: (String, TypeIdx)| p.0@)),
        decreases f@.len() - i,
    {
        proof {
            assert(f@.take(i as int + 1).map_values(|p: (String, TypeIdx)| p.0@).drop_last()
                =~= f@.take(i as int).map_values(|p: (String, TypeIdx)| p.0@));
        }
        if i > 0 {
            out = join2(out.as_str(), ", ");
        }
        out = join3(join2(out.as_str(), "\"").as_str(), f[i].0.as_str(), "\"");
        i += 1;
    }
    assert(f@.take(f@.len() as int) =~= f@);
    join2(out.as_str(), "}")
}

/// The type checker's state: the stores of types and environments, the
/// variable substitution found so far, and the place being checked.
pub struct TypeChecker {
    next_var_id: usize,
    substitutions: HashMap<usize, TypeIdx>,
    current_return_type: Option<TypeIdx>,
    pub current_line: usize,
    pub current_col: usize,
    pub types: Vec<Type>,
    pub envs: Vec<TypeEnv>,
    /// When each substitution was made; a substitution always points at a
    /// type that was not yet substituted, so chains only go forward in time.
    link_time: Ghost<Map<usize, nat>>,
    clock: Ghost<nat>,
}

impl TypeChecker {
    /// The substitution of type variables.
    pub closed spec fn subst(&self) -> Map<usize, TypeIdx> {
        self.substitutions@
    }

    /// The type store.
    pub closed spec fn type_store(&self) -> Seq<Type> {
        self.types@
    }

    /// The environment store.
    pub closed spec fn env_store(&self) -> Seq<TypeEnv> {
        self.envs@
    }

    /// The line being checked.
    pub closed spec fn line(&self) -> usize {
        self.current_line
    }

    /// The column being checked.
    pub closed spec fn col(&self) -> usize {
        self.current_col
    }

    /// The type that `current_return_type` names.
    pub closed spec fn return_type(&self) -> Option<TypeIdx> {
        self.current_return_type
    }

    /// The slot `i` holds a type variable that has been substituted.
    pub closed spec fn is_link(&self, i: int) -> bool {
        &&& 0 <= i < self.types@.len()
        &&& var_id(self.types@[i]) is Some
        &&& self.subst().contains_key(var_id(self.types@[i])->0)
    }

    /// A valid index into the type store.
    pub open spec fn valid(&self, t: TypeIdx) -> bool {
        (t.0 as int) < self.type_store().len()
    }

    /// A valid index into the environment store.
    pub open spec fn valid_env(&self, e: EnvIdx) -> bool {
        (e.0 as int) < self.env_store().len()
    }

    /// Every index stored anywhere is valid, every environment's outer scope
    /// comes before it, and following substitutions always terminates.
    pub closed spec fn wf(&self) -> bool {
        &&& forall|i: int| 0 <= i < self.types@.len() ==> type_wf(#[trigger] self.types@[i], self.types@.len())
        &&& forall|i: int| 0 <= i < self.envs@.len() ==> env_wf(#[trigger] self.envs@[i], i, self.types@.len())
        &&& forall|id: usize| #[trigger] self.substitutions@.contains_key(id) ==> {
            &&& (self.substitutions@[id].0 as int) < self.types@.len()
            &&& self.link_time@.contains_key(id)
            &&& self.link_time@[id] < self.clock@
            &&& (self.is_link(self.substitutions@[id].0 as int) ==> self.link_time@[id]
                < self.link_time@[var_id(self.types@[self.substitutions@[id].0 as int])->0])
        }
        &&& match self.current_return_type {
            Some(t) => (t.0 as int) < self.types@.len(),
            None => true,
        }
    }

    /// How many substitution steps may follow from slot `i`, at most.
    pub closed spec fn rank(&self, i: int) -> nat {
        if self.is_link(i) {
            (self.clock@ - self.link_time@[var_id(self.types@[i])->0]) as nat
        } else {
            0
        }
    }

    /// The representative of `idx`: follow substitutions until a type that is
    /// not a substituted variable.
    pub closed spec fn root(&self, idx: TypeIdx) -> TypeIdx
        decreases self.rank(idx.0 as int),
        when self.wf() && self.valid(idx)
    {
        if self.is_link(idx.0 as int) {
            self.root(self.substitutions@[var_id(self.types@[idx.0 as int])->0])
        } else {
            idx
        }
    }

    /// A root is valid and is not a substituted variable.
    pub proof fn lemma_root(&self, idx: TypeIdx)
        requires
            self.wf(),
            self.valid(idx),
        ensures
            self.valid(self.root(idx)),
            !self.is_link(self.root(idx).0 as int),
            !self.is_link(idx.0 as int) ==> self.root(idx) == idx,
        decreases self.rank(idx.0 as int),
    {
        if self.is_link(idx.0 as int) {
            let next = self.substitutions@[var_id(self.types@[idx.0 as int])->0];
            self.lemma_root(next);
        }
    }

    /// Finding is idempotent: the representative of a representative is
    /// itself.
    pub proof fn lemma_root_idempotent(&self, idx: TypeIdx)
        requires
            self.wf(),
            self.valid(idx),
        ensures
            self.valid(self.root(idx)),
            self.root(self.root(idx)) == self.root(idx),
    {
        self.lemma_root(idx);
        self.lemma_root(self.root(idx));
    }

    /// A type that is not a variable is its own root.
    pub proof fn lemma_plain_root(&self, t: TypeIdx)
        requires
            self.wf(),
            self.valid(t),
            !(self.type_store()[t.0 as int] is Var),
        ensures
            self.root(t) == t,
    {
        self.lemma_root(t);
    }

    /// A checker with an empty environment store and the type store holding
    /// `Number` alone.
    pub fn new() -> (checker: Self)
        ensures
            checker.wf(),
            checker.type_store().len() == 1,
            checker.type_store()[0] is Number,
            checker.env_store().len() == 0,
            checker.subst().is_empty(),
            checker.return_type() is None,
            checker.line() == 1,
            checker.col() == 1,
    {
        let mut checker = Self {
            next_var_id: 0,
            substitutions: HashMap::new(),
            current_return_type: None,
            current_line: 1,
            current_col: 1,
            types: Vec::new(),
            envs: Vec::new(),
            link_time: Ghost(Map::empty()),
            clock: Ghost(0),
        };
        checker.alloc_type(Type::Number);
        checker
    }

    /// Adds `ty` to the type store and returns its index.
    pub fn alloc_type(&mut self, ty: Type) -> (idx: TypeIdx)
        requires
            old(self).wf(),
            type_wf(ty, old(self).type_store().len()),
        ensures
            final(self).wf(),
            idx.0 == old(self).type_store().len(),
            final(self).type_store() == old(self).type_store().push(ty),
            final(self).env_store() == old(self).env_store(),
            final(self).subst() == old(self).subst(),
            final(self).return_type() == old(self).return_type(),
            final(self).line() == old(self).line(),
            final(self).col() == old(self).col(),
            forall|t: TypeIdx| old(self).valid(t) ==> final(self).root(t) == old(self).root(t),
            final(self).extends(old(self)),
    {
        let idx = self.types.len();
        let ghost old_self = *self;
        self.types.push(ty);
        proof {
            assert forall|i: int| 0 <= i < self.types@.len() implies type_wf(#[trigger] self.types@[i], self.types@.len()) by {
                if i < old_self.types@.len() {
                    assert(type_wf(old_self.types@[i], old_self.types@.len()));
                }
            }
            assert forall|i: int| 0 <= i < self.envs@.len() implies env_wf(#[trigger] self.envs@[i], i, self.types@.len()) by {
                assert(env_wf(old_self.envs@[i], i, old_self.types@.len()));
            }
            assert forall|t: TypeIdx| old_self.valid(t) implies self.root(t) == old_self.root(t) by {
                self.lemma_root_extend(&old_self, t);
            }
        }
        TypeIdx(idx)
    }

    /// Roots do not change when the store grows and the substitution is kept.
    proof fn lemma_root_extend(&self, old_self: &Self, t: TypeIdx)
        requires
            old_self.wf(),
            self.wf(),
            old_self.valid(t),
            self.types@.len() >= old_self.types@.len(),
            forall|i: int| 0 <= i < old_self.types@.len() ==> var_id(#[trigger] self.types@[i]) == var_id(old_self.types@[i]),
            self.subst() == old_self.subst(),
            self.link_time@ == old_self.link_time@,
            self.clock@ == old_self.clock@,
        ensures
            self.root(t) == old_self.root(t),
        decreases old_self.rank(t.0 as int),
    {
        if old_self.is_link(t.0 as int) {
            let next = old_self.substitutions@[var_id(old_self.types@[t.0 as int])->0];
            self.lemma_root_extend(old_self, next);
        }
    }

    /// The type at `idx`.
    pub fn get_type(&self, idx: TypeIdx) -> (t: &Type)
        requires
            self.valid(idx),
        ensures
            *t == self.type_store()[idx.0 as int],
    {
        &self.types[idx.0]
    }

    /// The type at `idx`, to change in place.
    pub fn get_type_mut(&mut self, idx: TypeIdx) -> (t: &mut Type)
        requires
            old(self).valid(idx),
        ensures
            *t == old(self).type_store()[idx.0 as int],
            final(self).type_store() == old(self).type_store().update(idx.0 as int, *final(t)),
            final(self).env_store() == old(self).env_store(),
            final(self).same_but_types(old(self)),
    {
        &mut self.types[idx.0]
    }

    /// Everything but the type store is as in `old`.
    pub closed spec fn same_but_types(&self, old: &Self) -> bool {
        &&& self.substitutions == old.substitutions
        &&& self.link_time == old.link_time
        &&& self.clock == old.clock
        &&& self.envs == old.envs
        &&& self.current_return_type == old.current_return_type
        &&& self.current_line == old.current_line
        &&& self.current_col == old.current_col
        &&& self.next_var_id == old.next_var_id
    }

    /// Replacing a type that is not a variable by one of the same form whose
    /// indices are in the store keeps the checker well formed, and keeps
    /// every root.
    pub proof fn lemma_retyped_wf(before: &Self, after: &Self, i: TypeIdx)
        requires
            before.wf(),
            before.valid(i),
            after.same_but_types(before),
            after.type_store() == before.type_store().update(i.0 as int, after.type_store()[i.0 as int]),
            !(before.type_store()[i.0 as int] is Var),
            shape(after.type_store()[i.0 as int]) == shape(before.type_store()[i.0 as int]),
            type_wf(after.type_store()[i.0 as int], before.type_store().len()),
        ensures
            after.wf(),
            forall|u: TypeIdx| before.valid(u) ==> after.root(u) == before.root(u),
    {
        assert forall|k: int| 0 <= k < after.types@.len() implies type_wf(#[trigger] after.types@[k], after.types@.len()) by {
            if k != i.0 as int {
                assert(type_wf(before.types@[k], before.types@.len()));
            }
        }
        assert forall|k: int| 0 <= k < after.envs@.len() implies env_wf(#[trigger] after.envs@[k], k, after.types@.len()) by {
            assert(env_wf(before.envs@[k], k, before.types@.len()));
        }
        assert forall|k: int| 0 <= k < after.types@.len() implies #[trigger] after.is_link(k) == before.is_link(k) by {
            assert(var_id(after.types@[k]) == var_id(before.types@[k]));
        }
        assert(after.wf());
        assert forall|u: TypeIdx| before.valid(u) implies after.root(u) == before.root(u) by {
            after.lemma_root_extend(before, u);
        }
    }

    /// What `name` means in environment `env`: its own entry, or else what
    /// it means in the scope around.
    pub closed spec fn lookup(&self, env: EnvIdx, name: Seq<char>) -> Option<(TypeIdx, bool)>
        decreases env.0,
        when self.wf() && self.valid_env(env)
    {
        match assoc(self.envs@[env.0 as int].store@, name) {
            Some(e) => Some(e),
            None => match self.envs@[env.0 as int].outer {
                Some(o) => self.lookup(o, name),
                None => None,
            },
        }
    }

    /// Inner scopes shadow outer ones: a name bound in `env` itself means
    /// that binding, and only a name that `env` does not bind is looked up in
    /// the scope around it.
    pub proof fn lemma_lookup_shadows(&self, env: EnvIdx, name: Seq<char>)
        requires
            self.wf(),
            self.valid_env(env),
        ensures
            assoc(self.env_store()[env.0 as int].store@, name) matches Some(e) ==> self.lookup(env, name) == Some(e),
            assoc(self.env_store()[env.0 as int].store@, name) is None ==> self.lookup(env, name)
                == match self.env_store()[env.0 as int].outer {
                    Some(o) => self.lookup(o, name),
                    None => None,
                },
    {
    }

    /// A step that keeps the environments, keeps every type already in the
    /// store and every representative gives each operand the base type it
    /// had.
    proof fn lemma_operand_frame(&self, before: &Self, env: EnvIdx, e: Expression)
        requires
            before.wf(),
            self.wf(),
            before.valid_env(env),
            self.envs@ == before.envs@,
            self.types@.len() >= before.types@.len(),
            forall|i: int| 0 <= i < before.types@.len() ==> #[trigger] self.types@[i] == before.types@[i],
            forall|t: TypeIdx| before.valid(t) ==> #[trigger] self.root(t) == before.root(t),
        ensures
            operand_base(*self, env, e) == operand_base(*before, env, e),
    {
        if let Expression::Identifier(n) = e {
            self.lemma_lookup_frame(before, env, n@);
            before.lemma_lookup_valid(env, n@);
            if let Some(entry) = before.lookup(env, n@) {
                before.lemma_root(entry.0);
                assert(self.root(entry.0) == before.root(entry.0));
            }
        }
    }

    /// What a name is bound to has its type in the store.
    proof fn lemma_lookup_valid(&self, env: EnvIdx, name: Seq<char>)
        requires
            self.wf(),
            self.valid_env(env),
        ensures
            self.lookup(env, name) matches Some(entry) ==> self.valid(entry.0),
        decreases env.0,
    {
        assert(env_wf(self.envs@[env.0 as int], env.0 as int, self.types@.len()));
        let st = self.envs@[env.0 as int].store@;
        if assoc(st, name) is Some {
            let i = lemma_assoc_some(st, name);
            assert(st[i].1 == assoc(st, name)->0);
        } else if let Some(o) = self.envs@[env.0 as int].outer {
            self.lemma_lookup_valid(o, name);
        }
    }

    /// Adds a top-level environment in which `print` is a constant of type
    /// `Any`.
    pub fn new_env(&mut self) -> (env: EnvIdx)
        requires
            old(self).wf(),
        ensures
            final(self).wf(),
            env.0 == old(self).env_store().len(),
            final(self).env_store().len() == old(self).env_store().len() + 1,
            final(self).type_store().len() == old(self).type_store().len() + 1,
            final(self).type_store()[old(self).type_store().len() as int] is Any,
            final(self).env_store()[env.0 as int].outer is None,
            final(self).env_store()[env.0 as int].store@.len() == 1,
            final(self).env_store()[env.0 as int].store@[0].0@ == seq!['p', 'r', 'i', 'n', 't'],
            final(self).env_store()[env.0 as int].store@[0].1 == (TypeIdx(old(self).type_store().len() as usize), true),
            final(self).lookup(env, seq!['p', 'r', 'i', 'n', 't']) == Some((TypeIdx(old(self).type_store().len() as usize), true)),
            forall|n: Seq<char>| n != seq!['p', 'r', 'i', 'n', 't'] ==> #[trigger] final(self).lookup(env, n) is None,
            final(self).type_store() == old(self).type_store().push(Type::Any),
            forall|j: int| 0 <= j < old(self).env_store().len() ==> #[trigger] final(self).env_store()[j] == old(self).env_store()[j],
            forall|e: EnvIdx, n: Seq<char>| old(self).valid_env(e) ==> final(self).lookup(e, n) == old(self).lookup(e, n),
            forall|t: TypeIdx| old(self).valid(t) ==> final(self).root(t) == old(self).root(t),
            final(self).subst() == old(self).subst(),
    {
        let ghost orig = *self;
        let any_ty = self.alloc_type(Type::Any);
        let mut store: Vec<(String, (TypeIdx, bool))> = Vec::new();
        store.push((crate::text::string_from_chars(&['p', 'r', 'i', 'n', 't']), (any_ty, true)));
        let idx = self.envs.len();
        let ghost mid = *self;
        self.envs.push(TypeEnv { store, outer: None });
        proof {
            self.lemma_env_push_frame(&mid);
            assert forall|e: EnvIdx, n: Seq<char>| orig.valid_env(e) implies mid.lookup(e, n) == orig.lookup(e, n) by {
                mid.lemma_lookup_frame(&orig, e, n);
            }
            reveal_with_fuel(assoc, 2);
            assert forall|n: Seq<char>| n != seq!['p', 'r', 'i', 'n', 't'] implies #[trigger] self.lookup(EnvIdx(idx), n) is None by {
                assert(self.envs@[idx as int].store@.len() == 1);
            }
            assert(self.lookup(EnvIdx(idx), seq!['p', 'r', 'i', 'n', 't']) == Some((any_ty, true)));
        }
        EnvIdx(idx)
    }

    /// Adds an environment inside `outer` with no variables of its own.
    pub fn new_enclosed_env(&mut self, outer: EnvIdx) -> (env: EnvIdx)
        requires
            old(self).wf(),
            old(self).valid_env(outer),
        ensures
            final(self).wf(),
            env.0 == old(self).env_store().len(),
            final(self).env_store().len() == old(self).env_store().len() + 1,
            final(self).type_store() == old(self).type_store(),
            final(self).env_store()[env.0 as int].outer == Some(outer),
            final(self).env_store()[env.0 as int].store@.len() == 0,
            forall|e: EnvIdx, n: Seq<char>| old(self).valid_env(e) ==> final(self).lookup(e, n) == old(self).lookup(e, n),
            forall|n: Seq<char>| final(self).lookup(env, n) == old(self).lookup(outer, n),
            forall|t: TypeIdx| old(self).valid(t) ==> final(self).root(t) == old(self).root(t),
            final(self).subst() == old(self).subst(),
            final(self).return_type() == old(self).return_type(),
    {
        let idx = self.envs.len();
        let ghost mid = *self;
        self.envs.push(TypeEnv { store: Vec::new(), outer: Some(outer) });
        proof {
            self.lemma_env_push_frame(&mid);
            assert forall|n: Seq<char>| self.lookup(EnvIdx(idx), n) == mid.lookup(outer, n) by {
                assert(assoc(self.envs@[idx as int].store@, n) is None);
            }
        }
        EnvIdx(idx)
    }

    /// Pushing an environment keeps what the old ones mean, and the roots.
    proof fn lemma_env_push_frame(&self, mid: &Self)
        requires
            mid.wf(),
            self.types@ == mid.types@,
            self.substitutions@ == mid.substitutions@,
            self.link_time@ == mid.link_time@,
            self.clock@ == mid.clock@,
            self.current_return_type == mid.current_return_type,
            self.envs@.len() == mid.envs@.len() + 1,
            forall|i: int| 0 <= i < mid.envs@.len() ==> self.envs@[i] == mid.envs@[i],
            env_wf(self.envs@[mid.envs@.len() as int], mid.envs@.len() as int, self.types@.len()),
        ensures
            self.wf(),
            forall|e: EnvIdx, n: Seq<char>| mid.valid_env(e) ==> self.lookup(e, n) == mid.lookup(e, n),
            forall|t: TypeIdx| mid.valid(t) ==> self.root(t) == mid.root(t),
    {
        assert forall|i: int| 0 <= i < self.envs@.len() implies env_wf(#[trigger] self.envs@[i], i, self.types@.len()) by {
            if i < mid.envs@.len() {
                assert(env_wf(mid.envs@[i], i, mid.types@.len()));
            }
        }
        assert forall|e: EnvIdx, n: Seq<char>| mid.valid_env(e) implies self.lookup(e, n) == mid.lookup(e, n) by {
            self.lemma_lookup_frame(mid, e, n);
        }
        assert forall|t: TypeIdx| mid.valid(t) implies self.root(t) == mid.root(t) by {
            self.lemma_root_extend(mid, t);
        }
    }

    /// Lookups in environments that did not change give the same answers.
    proof fn lemma_lookup_frame(&self, mid: &Self, e: EnvIdx, n: Seq<char>)
        requires
            mid.wf(),
            self.wf(),
            mid.valid_env(e),
            self.envs@.len() >= mid.envs@.len(),
            forall|i: int| 0 <= i < mid.envs@.len() ==> self.envs@[i] == mid.envs@[i],
        ensures
            self.lookup(e, n) == mid.lookup(e, n),
        decreases e.0,
    {
        assert(env_wf(mid.envs@[e.0 as int], e.0 as int, mid.types@.len()));
        match mid.envs@[e.0 as int].outer {
            Some(o) => { self.lemma_lookup_frame(mid, o, n); },
            None => {},
        }
    }

    /// Defines (or redefines) `name` in environment `env`.
    pub fn define_var(&mut self, env: EnvIdx, name: String, ty: TypeIdx, is_const: bool)
        requires
            old(self).wf(),
            old(self).valid_env(env),
            old(self).valid(ty),
        ensures
            final(self).wf(),
            final(self).type_store() == old(self).type_store(),
            final(self).env_store().len() == old(self).env_store().len(),
            final(self).subst() == old(self).subst(),
            final(self).return_type() == old(self).return_type(),
            final(self).line() == old(self).line(),
            final(self).col() == old(self).col(),
            final(self).lookup(env, name@) == Some((ty, is_const)),
            assoc(final(self).env_store()[env.0 as int].store@, name@) == Some((ty, is_const)),
            final(self).env_store()[env.0 as int].outer == old(self).env_store()[env.0 as int].outer,
            forall|n: Seq<char>| n != name@ ==> #[trigger] assoc(final(self).env_store()[env.0 as int].store@, n)
                == assoc(old(self).env_store()[env.0 as int].store@, n),
            forall|j: int| 0 <= j < old(self).env_store().len() && j != env.0
                ==> #[trigger] final(self).env_store()[j] == old(self).env_store()[j],
            forall|e: EnvIdx, n: Seq<char>| old(self).valid_env(e) && n != name@
                ==> final(self).lookup(e, n) == old(self).lookup(e, n),
            forall|t: TypeIdx| old(self).valid(t) ==> final(self).root(t) == old(self).root(t),
    {
        let ghost orig = *self;
        let ghost key = name@;
        assert(env_wf(self.envs@[env.0 as int], env.0 as int, self.types@.len()));
        assoc_insert(&mut self.envs[env.0].store, name, (ty, is_const));
        proof {
            assert forall|i: int| 0 <= i < self.envs@.len() implies env_wf(#[trigger] self.envs@[i], i, self.types@.len()) by {
                assert(env_wf(orig.envs@[i], i, orig.types@.len()));
                if i == env.0 as int {
                    let st = self.envs@[i].store@;
                    assert forall|j: int| 0 <= j < st.len() implies (st[j].1.0.0 as nat) < self.types@.len() by {
                        if j < orig.envs@[i].store@.len() && st[j] == orig.envs@[i].store@[j] {
                        } else {
                        }
                    }
                }
            }
            assert forall|t: TypeIdx| orig.valid(t) implies self.root(t) == orig.root(t) by {
                self.lemma_root_extend(&orig, t);
            }
            assert forall|e: EnvIdx, n: Seq<char>| orig.valid_env(e) && n != key
                implies self.lookup(e, n) == orig.lookup(e, n) by {
                self.lemma_lookup_other(&orig, env, key, e, n);
            }
        }
    }

    /// Changing one environment's entry for `key` keeps every lookup of
    /// other names.
    proof fn lemma_lookup_other(&self, orig: &Self, env: EnvIdx, key: Seq<char>, e: EnvIdx, n: Seq<char>)
        requires
            orig.wf(),
            self.wf(),
            orig.valid_env(e),
            n != key,
            self.envs@.len() == orig.envs@.len(),
            forall|i: int| 0 <= i < orig.envs@.len() && i != env.0 ==> self.envs@[i] == orig.envs@[i],
            self.envs@[env.0 as int].outer == orig.envs@[env.0 as int].outer,
            forall|m: Seq<char>| m != key ==> assoc(self.envs@[env.0 as int].store@, m)
                == assoc(orig.envs@[env.0 as int].store@, m),
        ensures
            self.lookup(e, n) == orig.lookup(e, n),
        decreases e.0,
    {
        assert(env_wf(orig.envs@[e.0 as int], e.0 as int, orig.types@.len()));
        match orig.envs@[e.0 as int].outer {
            Some(o) => { self.lemma_lookup_other(orig, env, key, o, n); },
            None => {},
        }
    }

    /// What `name` means in environment `env` (see `lookup`).
    pub fn resolve_var(&self, env: EnvIdx, name: &str) -> (r: Option<(TypeIdx, bool)>)
        requires
            self.wf(),
            self.valid_env(env),
        ensures
            r == self.lookup(env, name@),
            r matches Some(e) ==> self.valid(e.0),
    {
        let key = owned(name);
        let mut current = env;
        loop
            invariant
                self.wf(),
                self.valid_env(current),
                self.lookup(env, name@) == self.lookup(current, name@),
                key@ == name@,
            decreases current.0,
        {
            assert(env_wf(self.envs@[current.0 as int], current.0 as int, self.types@.len()));
            match assoc_position(&self.envs[current.0].store, key.as_str()) {
                Some(i) => {
                    return Some(self.envs[current.0].store[i].1);
                },
                None => match self.envs[current.0].outer {
                    Some(o) => {
                        current = o;
                    },
                    None => {
                        return None;
                    },
                },
            }
        }
    }

    /// A fresh type variable.
    fn new_var(&mut self) -> (t: Type)
        requires
            old(self).wf(),
        ensures
            *final(self) == (TypeChecker { next_var_id: final(self).next_var_id, ..*old(self) }),
            t == Type::Var(old(self).next_var_id),
            final(self).next_var_id == (if old(self).next_var_id == usize::MAX { 0 } else { old(self).next_var_id + 1 }),
    {
        let id = self.next_var_id;
        self.next_var_id = self.next_var_id.wrapping_add(1);
        Type::Var(id)
    }

    /// The text of a type: variables as `'t` and their number, records as
    /// `{ name: type, ... }`, functions as `(params) -> ret`, a tuple of one
    /// as `(t,)`. A type met again inside itself reads `...`.
    pub closed spec fn type_str(&self, idx: TypeIdx, visited: Seq<bool>) -> Seq<char>
        decreases count_false(visited), 0nat,
        when self.wf() && self.valid(idx) && visited.len() == self.type_store().len()
    {
        let r = self.root(idx);
        proof { self.lemma_root(idx); }
        if visited[r.0 as int] {
            "..."@
        } else {
            let v2 = visited.update(r.0 as int, true);
            proof {
                lemma_count_false_update(visited, r.0 as int);
                assert(type_wf(self.types@[r.0 as int], self.types@.len()));
            }
            match self.types@[r.0 as int] {
                Type::Var(id) => "'t"@ + spec_decimal(id as nat),
                Type::Number => "Number"@,
                Type::String => "String"@,
                Type::Atom => "Atom"@,
                Type::Any => "Any"@,
                Type::Array(inner) => "Array<"@ + self.type_str(inner, v2) + ">"@,
                Type::Hash(f) => "{ "@ + self.fields_str(f@, v2) + " }"@,
                Type::Function { params, ret } => "("@ + self.list_str(params@, v2) + ") -> "@
                    + self.type_str(ret, v2),
                Type::Tuple(e) => if e@.len() == 1 {
                    "("@ + self.type_str(e@[0], v2) + ",)"@
                } else {
                    "("@ + self.list_str(e@, v2) + ")"@
                },
            }
        }
    }

    /// The texts of the types in `items`, joined by `, `.
    pub closed spec fn list_str(&self, items: Seq<TypeIdx>, visited: Seq<bool>) -> Seq<char>
        decreases count_false(visited), items.len() + 1,
        when self.wf() && visited.len() == self.type_store().len()
            && (forall|i: int| 0 <= i < items.len() ==> self.valid(items[i]))
    {
        if items.len() == 0 {
            Seq::empty()
        } else if items.len() == 1 {
            self.type_str(items[0], visited)
        } else {
            self.list_str(items.drop_last(), visited) + ", "@ + self.type_str(items.last(), visited)
        }
    }

    /// The texts `name: type` of the fields, joined by `, `.
    pub closed spec fn fields_str(&self, fields: Seq<(String, TypeIdx)>, visited: Seq<bool>) -> Seq<char>
        decreases count_false(visited), fields.len() + 1,
        when self.wf() && visited.len() == self.type_store().len()
            && (forall|i: int| 0 <= i < fields.len() ==> self.valid(fields[i].1))
    {
        if fields.len() == 0 {
            Seq::empty()
        } else if fields.len() == 1 {
            fields[0].0@ + ": "@ + self.type_str(fields[0].1, visited)
        } else {
            self.fields_str(fields.drop_last(), visited) + ", "@ + fields.last().0@ + ": "@
                + self.type_str(fields.last().1, visited)
        }
    }

    /// The text of the type at `idx` (see `type_str`).
    pub fn type_to_string(&self, idx: TypeIdx) -> (s: String)
        requires
            self.wf(),
            self.valid(idx),
        ensures
            s@ == self.type_str(idx, Seq::new(self.type_store().len(), |i: int| false)),
    {
        let mut visited = all_false(self.types.len());
        assert(visited@ =~= Seq::new(self.types@.len(), |i: int| false));
        self.type_to_string_helper(idx, &mut visited)
    }

    fn type_to_string_helper(&self, idx: TypeIdx, visited: &mut Vec<bool>) -> (s: String)
        requires
            self.wf(),
            self.valid(idx),
            old(visited)@.len() == self.types@.len(),
        ensures
            s@ == self.type_str(idx, old(visited)@),
            final(visited)@ == old(visited)@,
        decreases count_false(old(visited)@), 0nat,
    {
        let ghost v0 = visited@;
        let r = self.find(idx);
        if visited[r.0] {
            return owned("...");
        }
        visited.set(r.0, true);
        proof {
            lemma_count_false_update(v0, r.0 as int);
            assert(type_wf(self.types@[r.0 as int], self.types@.len()));
        }
        let res = match &self.types[r.0] {
            Type::Var(id) => join2("'t", decimal_string(*id).as_str()),
            Type::Number => owned("Number"),
            Type::String => owned("String"),
            Type::Atom => owned("Atom"),
            Type::Any => owned("Any"),
            Type::Array(inner) => {
                proof { assert(child_indices(self.types@[r.0 as int])[0] == *inner); }
                let t = self.type_to_string_helper(*inner, visited);
                join3("Array<", t.as_str(), ">")
            },
            Type::Hash(f) => {
                proof {
                    assert forall|i: int| 0 <= i < f@.len() implies self.valid(f@[i].1) by {
                        assert(child_indices(self.types@[r.0 as int])[i] == f@[i].1);
                    }
                }
                let t = self.fields_to_string(f, visited);
                join3("{ ", t.as_str(), " }")
            },
            Type::Function { params, ret } => {
                proof {
                    assert forall|i: int| 0 <= i < params@.len() implies self.valid(params@[i]) by {
                        assert(child_indices(self.types@[r.0 as int])[i] == params@[i]);
                    }
                    assert(child_indices(self.types@[r.0 as int])[params@.len() as int] == *ret);
                }
                let ps = self.list_to_string(params, visited);
                let rs = self.type_to_string_helper(*ret, visited);
                join3(join2("(", ps.as_str()).as_str(), ") -> ", rs.as_str())
            },
            Type::Tuple(e) => {
                proof {
                    assert forall|i: int| 0 <= i < e@.len() implies self.valid(e@[i]) by {
                        assert(child_indices(self.types@[r.0 as int])[i] == e@[i]);
                    }
                }
                if e.len() == 1 {
                    let t = self.type_to_string_helper(e[0], visited);
                    join3("(", t.as_str(), ",)")
                } else {
                    let t = self.list_to_string(e, visited);
                    join3("(", t.as_str(), ")")
                }
            },
        };
        visited.set(r.0, false);
        proof {
            assert(visited@ =~= v0);
        }
        res
    }

    fn list_to_string(&self, items: &Vec<TypeIdx>, visited: &mut Vec<bool>) -> (s: String)
        requires
            self.wf(),
            old(visited)@.len() == self.types@.len(),
            forall|i: int| 0 <= i < items@.len() ==> self.valid(items@[i]),
        ensures
            s@ == self.list_str(items@, old(visited)@),
            final(visited)@ == old(visited)@,
        decreases count_false(old(visited)@), items@.len() + 1,
    {
        let mut out = String::new();
        let mut i: usize = 0;
        while i < items.len()
            invariant
                self.wf(),
                visited@ == old(visited)@,
                visited@.len() == self.types@.len(),
                forall|k: int| 0 <= k < items@.len() ==> self.valid(items@[k]),
                i <= items@.len(),
                out@ == self.list_str(items@.take(i as int), visited@),
            decreases items@.len() - i,
        {
            let t = self.type_to_string_helper(items[i], visited);
            proof {
                assert(items@.take(i as int + 1).drop_last() =~= items@.take(i as int));
            }
            if i == 0 {
                out = t;
            } else {
                out = join3(out.as_str(), ", ", t.as_str());
            }
            i += 1;
        }
        proof { assert(items@.take(items@.len() as int) =~= items@); }
        out
    }

    fn fields_to_string(&self, fields: &Vec<(String, TypeIdx)>, visited: &mut Vec<bool>) -> (s: String)
        requires
            self.wf(),
            old(visited)@.len() == self.types@.len(),
            forall|i: int| 0 <= i < fields@.len() ==> self.valid(fields@[i].1),
        ensures
            s@ == self.fields_str(fields@, old(visited)@),
            final(visited)@ == old(visited)@,
        decreases count_false(old(visited)@), fields@.len() + 1,
    {
        let mut out = String::new();
        let mut i: usize = 0;
        while i < fields.len()
            invariant
                self.wf(),
                visited@ == old(visited)@,
                visited@.len() == self.types@.len(),
                forall|k: int| 0 <= k < fields@.len() ==> self.valid(fields@[k].1),
                i <= fields@.len(),
                out@ == self.fields_str(fields@.take(i as int), visited@),
            decreases fields@.len() - i,
        {
            let t = self.type_to_string_helper(fields[i].1, visited);
            let entry = join3(fields[i].0.as_str(), ": ", t.as_str());
            proof {
                assert(fields@.take(i as int + 1).drop_last() =~= fields@.take(i as int));
            }
            if i == 0 {
                out = entry;
            } else {
                out = join3(out.as_str(), ", ", entry.as_str());
            }
            i += 1;
        }
        proof { assert(fields@.take(fields@.len() as int) =~= fields@); }
        out
    }

    /// Whether variable `id` occurs in the type at `idx`, following roots and
    /// not entering a type already being visited.
    pub closed spec fn occurs(&self, id: usize, idx: TypeIdx, visited: Seq<bool>) -> bool
        decreases count_false(visited), 0nat,
        when self.wf() && self.valid(idx) && visited.len() == self.type_store().len()
    {
        let r = self.root(idx);
        proof { self.lemma_root(idx); }
        if visited[r.0 as int] {
            false
        } else {
            let v2 = visited.update(r.0 as int, true);
            proof {
                lemma_count_false_update(visited, r.0 as int);
                assert(type_wf(self.types@[r.0 as int], self.types@.len()));
            }
            match self.types@[r.0 as int] {
                Type::Var(v) => v == id,
                Type::Array(inner) => self.occurs(id, inner, v2),
                Type::Hash(f) => self.occurs_any(id, f@.map_values(|p: (String, TypeIdx)| p.1), v2),
                Type::Function { params, ret } => self.occurs_any(id, params@, v2) || self.occurs(id, ret, v2),
                Type::Tuple(e) => self.occurs_any(id, e@, v2),
                _ => false,
            }
        }
    }

    /// Whether variable `id` occurs in any of `items`.
    pub closed spec fn occurs_any(&self, id: usize, items: Seq<TypeIdx>, visited: Seq<bool>) -> bool
        decreases count_false(visited), items.len() + 1,
        when self.wf() && visited.len() == self.type_store().len()
            && (forall|i: int| 0 <= i < items.len() ==> self.valid(items[i]))
    {
        if items.len() == 0 {
            false
        } else {
            self.occurs_any(id, items.drop_last(), visited) || self.occurs(id, items.last(), visited)
        }
    }

    fn occurs_in(&self, id: usize, ty: TypeIdx) -> (r: bool)
        requires
            self.wf(),
            self.valid(ty),
        ensures
            r == self.occurs(id, ty, Seq::new(self.types@.len(), |i: int| false)),
    {
        let mut visited = all_false(self.types.len());
        assert(visited@ =~= Seq::new(self.types@.len(), |i: int| false));
        self.occurs_in_helper(id, ty, &mut visited)
    }

    fn occurs_in_helper(&self, id: usize, ty: TypeIdx, visited: &mut Vec<bool>) -> (r: bool)
        requires
            self.wf(),
            self.valid(ty),
            old(visited)@.len() == self.types@.len(),
        ensures
            r == self.occurs(id, ty, old(visited)@),
            final(visited)@ == old(visited)@,
        decreases count_false(old(visited)@), 0nat,
    {
        let ghost v0 = visited@;
        let r = self.find(ty);
        if visited[r.0] {
            return false;
        }
        visited.set(r.0, true);
        proof {
            lemma_count_false_update(v0, r.0 as int);
            assert(type_wf(self.types@[r.0 as int], self.types@.len()));
        }
        let res = match &self.types[r.0] {
            Type::Var(v) => *v == id,
            Type::Array(inner) => {
                proof { assert(child_indices(self.types@[r.0 as int])[0] == *inner); }
                self.occurs_in_helper(id, *inner, visited)
            },
            Type::Hash(f) => {
                let vals = field_values(f);
                proof {
                    assert forall|i: int| 0 <= i < vals@.len() implies self.valid(vals@[i]) by {
                        assert(child_indices(self.types@[r.0 as int])[i] == vals@[i]);
                    }
                }
                self.occurs_in_list(id, &vals, visited)
            },
            Type::Function { params, ret } => {
                proof {
                    assert forall|i: int| 0 <= i < params@.len() implies self.valid(params@[i]) by {
                        assert(child_indices(self.types@[r.0 as int])[i] == params@[i]);
                    }
                    assert(child_indices(self.types@[r.0 as int])[params@.len() as int] == *ret);
                }
                self.occurs_in_list(id, params, visited) || self.occurs_in_helper(id, *ret, visited)
            },
            Type::Tuple(e) => {
                proof {
                    assert forall|i: int| 0 <= i < e@.len() implies self.valid(e@[i]) by {
                        assert(child_indices(self.types@[r.0 as int])[i] == e@[i]);
                    }
                }
                self.occurs_in_list(id, e, visited)
            },
            _ => false,
        };
        visited.set(r.0, false);
        proof {
            assert(visited@ =~= v0);
        }
        res
    }

    fn occurs_in_list(&self, id: usize, items: &Vec<TypeIdx>, visited: &mut Vec<bool>) -> (r: bool)
        requires
            self.wf(),
            old(visited)@.len() == self.types@.len(),
            forall|i: int| 0 <= i < items@.len() ==> self.valid(items@[i]),
        ensures
            r == self.occurs_any(id, items@, old(visited)@),
            final(visited)@ == old(visited)@,
        decreases count_false(old(visited)@), items@.len() + 1,
    {
        let mut i: usize = 0;
        while i < items.len()
            invariant
                self.wf(),
                visited@ == old(visited)@,
                visited@.len() == self.types@.len(),
                forall|k: int| 0 <= k < items@.len() ==> self.valid(items@[k]),
                i <= items@.len(),
                !self.occurs_any(id, items@.take(i as int), visited@),
            decreases items@.len() - i,
        {
            proof {
                assert(items@.take(i as int + 1).drop_last() =~= items@.take(i as int));
            }
            if self.occurs_in_helper(id, items[i], visited) {
                proof {
                    self.lemma_occurs_any_prefix(id, items@, visited@, i as int + 1);
                }
                return true;
            }
            i += 1;
        }
        proof { assert(items@.take(items@.len() as int) =~= items@); }
        false
    }

    /// If a variable occurs in a prefix of a list, it occurs in the list.
    proof fn lemma_occurs_any_prefix(&self, id: usize, items: Seq<TypeIdx>, visited: Seq<bool>, k: int)
        requires
            self.wf(),
            visited.len() == self.types@.len(),
            forall|i: int| 0 <= i < items.len() ==> self.valid(items[i]),
            0 <= k <= items.len(),
            self.occurs_any(id, items.take(k), visited),
        ensures
            self.occurs_any(id, items, visited),
        decreases items.len() - k,
    {
        if k < items.len() {
            assert(items.take(k + 1).drop_last() =~= items.take(k));
            self.lemma_occurs_any_prefix(id, items, visited, k + 1);
        } else {
            assert(items.take(k) =~= items);
        }
    }

    /// Everything but the contents of structured types is as in `old`.
    pub closed spec fn keeps_links(&self, old: &Self) -> bool {
        &&& self.substitutions@ == old.substitutions@
        &&& self.link_time@ == old.link_time@
        &&& self.clock@ == old.clock@
        &&& self.envs@ == old.envs@
        &&& self.current_return_type == old.current_return_type
        &&& self.current_line == old.current_line
        &&& self.current_col == old.current_col
        &&& self.next_var_id == old.next_var_id
        &&& self.types@.len() == old.types@.len()
        &&& forall|i: int| 0 <= i < old.types@.len() ==> shape(#[trigger] self.types@[i]) == shape(old.types@[i])
    }

    /// Each type stored in `old` has, at each of its places, a child with the
    /// same root in `old` as before, and a record keeps its field names in
    /// order.
    pub open spec fn same_children(&self, old: &Self) -> bool {
        forall|i: int| 0 <= i < old.type_store().len()
            ==> #[trigger] old.kept_children(self.type_store()[i], old.type_store()[i])
    }

    /// Every index inside `t` is a root here.
    pub open spec fn children_are_roots(&self, t: Type) -> bool {
        forall|k: int| 0 <= k < child_indices(t).len()
            ==> #[trigger] self.root(child_indices(t)[k]) == child_indices(t)[k]
    }

    /// `new_t` has the children of `old_t`, up to their roots here.
    pub open spec fn kept_children(&self, new_t: Type, old_t: Type) -> bool {
        &&& child_indices(new_t).len() == child_indices(old_t).len()
        &&& forall|k: int| 0 <= k < child_indices(old_t).len()
            ==> self.root(#[trigger] child_indices(new_t)[k]) == self.root(child_indices(old_t)[k])
        &&& (old_t matches Type::Hash(f0) ==> new_t matches Type::Hash(f1)
            && forall|k: int| 0 <= k < f0@.len() ==> #[trigger] f1@[k].0@ == f0@[k].0@)
    }

    proof fn lemma_same_children_refl(&self)
        ensures
            self.same_children(self),
    {
    }

    proof fn lemma_same_children_trans(&self, mid: &Self, last: &Self)
        requires
            self.wf(),
            mid.wf(),
            last.wf(),
            mid.keeps_links(self),
            last.keeps_links(mid),
            mid.same_children(self),
            last.same_children(mid),
            forall|u: TypeIdx| self.valid(u) ==> mid.root(u) == self.root(u),
        ensures
            last.same_children(self),
    {
        assert forall|i: int| 0 <= i < self.types@.len() implies #[trigger] self.kept_children(last.type_store()[i], self.type_store()[i]) by {
            assert(mid.kept_children(last.type_store()[i], mid.type_store()[i]));
            assert(self.kept_children(mid.type_store()[i], self.type_store()[i]));
            assert(type_wf(mid.types@[i], mid.types@.len()));
            assert(type_wf(self.types@[i], self.types@.len()));
            let a2 = child_indices(last.types@[i]);
            let a1 = child_indices(mid.types@[i]);
            let a0 = child_indices(self.types@[i]);
            assert forall|k: int| 0 <= k < a0.len() implies self.root(#[trigger] a2[k]) == self.root(a0[k]) by {
                assert(mid.root(a2[k]) == mid.root(a1[k]));
                assert(self.root(a1[k]) == self.root(a0[k]));
                assert(self.valid(a1[k]));
                assert(type_wf(last.types@[i], last.types@.len()));
                assert(self.valid(a2[k]));
            }
        }
    }

    /// Replacing the type at `i` by one with the children it had keeps the
    /// children of every type.
    proof fn lemma_same_children_set(&self, cur: &Self, next: &Self, i: int, t: Type)
        requires
            cur.same_children(self),
            cur.types@.len() == self.types@.len(),
            0 <= i < self.types@.len(),
            next.types@ == cur.types@.update(i, t),
            self.kept_children(t, self.types@[i]),
        ensures
            next.same_children(self),
    {
        assert forall|j: int| 0 <= j < self.types@.len() implies #[trigger] self.kept_children(next.type_store()[j], self.type_store()[j]) by {
            if j != i {
                assert(self.kept_children(cur.type_store()[j], self.type_store()[j]));
            }
        }
    }

    /// After the state grew, the root of `t` is the root of its former root.
    proof fn lemma_root_through(&self, old_self: &Self, t: TypeIdx)
        requires
            old_self.wf(),
            self.wf(),
            old_self.valid(t),
            self.extends(old_self),
        ensures
            self.root(t) == self.root(old_self.root(t)),
        decreases old_self.rank(t.0 as int),
    {
        if old_self.is_link(t.0 as int) {
            let id = var_id(old_self.types@[t.0 as int])->0;
            let next = old_self.substitutions@[id];
            assert(old_self.subst().contains_key(id));
            assert(shape(self.types@[t.0 as int]) == shape(old_self.types@[t.0 as int]));
            assert(var_id(self.types@[t.0 as int]) == Some(id));
            assert(self.subst().contains_key(id) && self.subst()[id] == next);
            assert(self.is_link(t.0 as int));
            self.lemma_root_through(old_self, next);
        } else {
            old_self.lemma_root(t);
        }
    }

    /// A root that is not a variable stays a root as the state grows.
    proof fn lemma_plain_stays(&self, old_self: &Self, t: TypeIdx)
        requires
            old_self.wf(),
            self.wf(),
            old_self.valid(t),
            self.extends(old_self),
            !(old_self.types@[t.0 as int] is Var),
        ensures
            self.root(t) == t,
            shape(self.types@[t.0 as int]) == shape(old_self.types@[t.0 as int]),
    {
        assert(shape(self.types@[t.0 as int]) == shape(old_self.types@[t.0 as int]));
        assert(!self.is_link(t.0 as int));
        self.lemma_root(t);
    }

    /// `a` and `b` stand for the same kind of type here: they have one root,
    /// their roots are the same base type, one of them is `Any`, or both are
    /// structured types of the same form and size.
    pub open spec fn agree(&self, a: TypeIdx, b: TypeIdx) -> bool {
        let ra = self.root(a);
        let rb = self.root(b);
        let ta = self.type_store()[ra.0 as int];
        let tb = self.type_store()[rb.0 as int];
        ||| ra == rb
        ||| same_base(ta, tb)
        ||| ta is Any
        ||| tb is Any
        ||| shape(ta) == shape(tb) && 4 <= shape(ta).0 <= 7
    }

    /// What agrees keeps agreeing as the state grows.
    proof fn lemma_agree_kept(&self, old_self: &Self, a: TypeIdx, b: TypeIdx)
        requires
            old_self.wf(),
            self.wf(),
            old_self.valid(a),
            old_self.valid(b),
            self.extends(old_self),
            old_self.agree(a, b),
        ensures
            self.agree(a, b),
    {
        self.lemma_root_through(old_self, a);
        self.lemma_root_through(old_self, b);
        old_self.lemma_root(a);
        old_self.lemma_root(b);
        let ra = old_self.root(a);
        let rb = old_self.root(b);
        if !(old_self.types@[ra.0 as int] is Var) {
            self.lemma_plain_stays(old_self, ra);
        }
        if !(old_self.types@[rb.0 as int] is Var) {
            self.lemma_plain_stays(old_self, rb);
        }
    }

    /// A unification that succeeded leaves its two sides agreeing.
    proof fn lemma_unify_agree(before: &Self, after: &Self, t1: TypeIdx, t2: TypeIdx)
        requires
            before.wf(),
            after.wf(),
            before.valid(t1),
            before.valid(t2),
            after.extends(before),
            Self::unify_outcome(before, after, t1, t2, Ok(())),
        ensures
            after.agree(t1, t2),
    {
        after.lemma_root_through(before, t1);
        after.lemma_root_through(before, t2);
        before.lemma_root(t1);
        before.lemma_root(t2);
        let a = before.root(t1);
        let b = before.root(t2);
        let ta = before.types@[a.0 as int];
        let tb = before.types@[b.0 as int];
        if a != b {
            if ta is Var {
                let id = var_id(ta)->0;
                assert(after.subst() == before.subst().insert(id, b));
                assert(after.types@ == before.types@);
                assert(after.is_link(a.0 as int));
                assert(after.root(a) == after.root(b));
            } else if tb is Var {
                let id = var_id(tb)->0;
                assert(after.subst() == before.subst().insert(id, a));
                assert(after.types@ == before.types@);
                assert(after.is_link(b.0 as int));
                assert(after.root(b) == after.root(a));
            } else {
                after.lemma_plain_stays(before, a);
                after.lemma_plain_stays(before, b);
            }
        }
    }

    /// The state grew from `old`: more types, more substitutions, the same
    /// environments; no stored type changed its variant.
    pub closed spec fn extends(&self, old: &Self) -> bool {
        &&& self.types@.len() >= old.types@.len()
        &&& forall|i: int| 0 <= i < old.types@.len() ==> shape(#[trigger] self.types@[i]) == shape(old.types@[i])
        &&& self.envs@ == old.envs@
        &&& self.current_return_type == old.current_return_type
        &&& self.current_line == old.current_line
        &&& self.current_col == old.current_col
        &&& forall|id: usize| #[trigger] old.substitutions@.contains_key(id)
            ==> self.substitutions@.contains_key(id) && self.substitutions@[id] == old.substitutions@[id]
    }

    /// `extends` is a preorder.
    pub proof fn lemma_extends_trans(&self, mid: &Self, old: &Self)
        requires
            self.extends(mid),
            mid.extends(old),
        ensures
            self.extends(old),
    {
        assert forall|i: int| 0 <= i < old.types@.len() implies shape(#[trigger] self.types@[i]) == shape(old.types@[i]) by {
            assert(shape(self.types@[i]) == shape(mid.types@[i]));
        }
    }

    /// Replaces the structured type at `i` by one of the same variant.
    fn set_type(&mut self, i: TypeIdx, t: Type)
        requires
            old(self).wf(),
            old(self).valid(i),
            !(old(self).types@[i.0 as int] is Var),
            shape(t) == shape(old(self).types@[i.0 as int]),
            type_wf(t, old(self).types@.len()),
        ensures
            final(self).wf(),
            final(self).types@ == old(self).types@.update(i.0 as int, t),
            final(self).keeps_links(old(self)),
            forall|u: TypeIdx| old(self).valid(u) ==> final(self).root(u) == old(self).root(u),
    {
        let ghost orig = *self;
        self.types.set(i.0, t);
        proof {
            assert forall|k: int| 0 <= k < self.types@.len() implies type_wf(#[trigger] self.types@[k], self.types@.len()) by {
                if k != i.0 as int {
                    assert(type_wf(orig.types@[k], orig.types@.len()));
                }
            }
            assert forall|k: int| 0 <= k < self.envs@.len() implies env_wf(#[trigger] self.envs@[k], k, self.types@.len()) by {
                assert(env_wf(orig.envs@[k], k, orig.types@.len()));
            }
            assert forall|k: int| 0 <= k < self.types@.len() implies #[trigger] self.is_link(k) == orig.is_link(k) by {
                assert(var_id(self.types@[k]) == var_id(orig.types@[k]));
            }
            assert forall|u: TypeIdx| orig.valid(u) implies self.root(u) == orig.root(u) by {
                self.lemma_root_extend(&orig, u);
            }
        }
    }

    /// Substitutes `target` for variable `id`.
    fn bind(&mut self, id: usize, target: TypeIdx)
        requires
            old(self).wf(),
            !old(self).subst().contains_key(id),
            old(self).valid(target),
            !old(self).is_link(target.0 as int),
            var_id(old(self).types@[target.0 as int]) != Some(id),
        ensures
            final(self).wf(),
            final(self).types@ == old(self).types@,
            final(self).subst() == old(self).subst().insert(id, target),
            final(self).extends(old(self)),
    {
        let ghost orig = *self;
        self.substitutions.insert(id, target);
        self.link_time = Ghost(self.link_time@.insert(id, self.clock@));
        self.clock = Ghost(self.clock@ + 1);
        proof {
            assert forall|k: int| 0 <= k < self.envs@.len() implies env_wf(#[trigger] self.envs@[k], k, self.types@.len()) by {
                assert(env_wf(orig.envs@[k], k, orig.types@.len()));
            }
            assert forall|k: int| 0 <= k < self.types@.len() implies type_wf(#[trigger] self.types@[k], self.types@.len()) by {
                assert(type_wf(orig.types@[k], orig.types@.len()));
            }
            assert forall|v: usize| #[trigger] self.substitutions@.contains_key(v) implies {
                &&& (self.substitutions@[v].0 as int) < self.types@.len()
                &&& self.link_time@.contains_key(v)
                &&& self.link_time@[v] < self.clock@
                &&& (self.is_link(self.substitutions@[v].0 as int) ==> self.link_time@[v]
                    < self.link_time@[var_id(self.types@[self.substitutions@[v].0 as int])->0])
            } by {
                if v != id {
                    assert(orig.substitutions@.contains_key(v));
                }
            }
        }
    }

    /// The root of `idx`, with the indices inside every structured type
    /// reachable from it replaced by their roots.
    pub fn find_deep(&mut self, idx: TypeIdx) -> (r: TypeIdx)
        requires
            old(self).wf(),
            old(self).valid(idx),
        ensures
            final(self).wf(),
            r == old(self).root(idx),
            final(self).valid(r),
            final(self).keeps_links(old(self)),
            final(self).extends(old(self)),
            forall|u: TypeIdx| old(self).valid(u) ==> final(self).root(u) == old(self).root(u),
            final(self).same_children(old(self)),
            final(self).type_store().len() == old(self).type_store().len(),
            final(self).env_store() == old(self).env_store(),
            final(self).subst() == old(self).subst(),
            final(self).children_are_roots(final(self).type_store()[r.0 as int]),
    {
        proof { self.lemma_root(idx); }
        let mut visited = all_false(self.types.len());
        self.find_deep_helper(idx, &mut visited)
    }

    fn find_deep_helper(&mut self, idx: TypeIdx, visited: &mut Vec<bool>) -> (r: TypeIdx)
        requires
            old(self).wf(),
            old(self).valid(idx),
            old(visited)@.len() == old(self).types@.len(),
        ensures
            final(self).wf(),
            r == old(self).root(idx),
            final(self).keeps_links(old(self)),
            forall|u: TypeIdx| old(self).valid(u) ==> final(self).root(u) == old(self).root(u),
            final(visited)@ == old(visited)@,
            final(self).same_children(old(self)),
            !old(visited)@[old(self).root(idx).0 as int]
                ==> final(self).children_are_roots(final(self).types@[r.0 as int]),
        decreases count_false(old(visited)@), 0nat,
    {
        let ghost orig = *self;
        let ghost v0 = visited@;
        let root = self.find(idx);
        proof { self.lemma_root(idx); self.lemma_same_children_refl(); }
        if visited[root.0] {
            return root;
        }
        visited.set(root.0, true);
        proof {
            lemma_count_false_update(v0, root.0 as int);
            assert(type_wf(self.types@[root.0 as int], self.types@.len()));
        }
        let ty = copy_type(&self.types[root.0]);
        match ty {
            Type::Array(inner) => {
                proof { assert(child_indices(self.types@[root.0 as int])[0] == inner); }
                let resolved_inner = self.find_deep_helper(inner, visited);
                proof {
                    self.lemma_root(inner);
                    orig.lemma_root(inner);
                    orig.lemma_root(orig.root(inner));
                    assert(child_indices(Type::Array(resolved_inner))[0] == resolved_inner);
                    assert(orig.kept_children(Type::Array(resolved_inner), orig.types@[root.0 as int]));
                }
                let ghost cur = *self;
                self.set_type(root, Type::Array(resolved_inner));
                proof {
                    orig.lemma_same_children_set(&cur, self, root.0 as int, Type::Array(resolved_inner));
                    assert(self.root(resolved_inner) == orig.root(resolved_inner));
                    assert(self.children_are_roots(self.types@[root.0 as int]));
                }
            },
            Type::Hash(fields) => {
                proof {
                    assert forall|k: int| 0 <= k < fields@.len() implies self.valid(#[trigger] fields@[k].1) by {
                        assert(child_indices(self.types@[root.0 as int])[k] == fields@[k].1);
                    }
                }
                let resolved_fields = self.find_deep_fields(&fields, visited);
                proof {
                    let t = Type::Hash(resolved_fields);
                    assert forall|k: int| 0 <= k < child_indices(orig.types@[root.0 as int]).len()
                        implies orig.root(#[trigger] child_indices(t)[k]) == orig.root(child_indices(orig.types@[root.0 as int])[k]) by {
                        assert(child_indices(orig.types@[root.0 as int])[k] == fields@[k].1);
                        assert(child_indices(t)[k] == resolved_fields@[k].1);
                        orig.lemma_root(fields@[k].1);
                        orig.lemma_root(orig.root(fields@[k].1));
                    }
                    assert(orig.kept_children(t, orig.types@[root.0 as int]));
                }
                let ghost cur = *self;
                self.set_type(root, Type::Hash(resolved_fields));
                proof {
                    orig.lemma_same_children_set(&cur, self, root.0 as int, Type::Hash(resolved_fields));
                    let t = Type::Hash(resolved_fields);
                    assert forall|k: int| 0 <= k < child_indices(t).len()
                        implies #[trigger] self.root(child_indices(t)[k]) == child_indices(t)[k] by {
                        assert(child_indices(t)[k] == resolved_fields@[k].1);
                        orig.lemma_root(fields@[k].1);
                        orig.lemma_root(orig.root(fields@[k].1));
                        assert(self.root(resolved_fields@[k].1) == orig.root(resolved_fields@[k].1));
                    }
                }
            },
            Type::Tuple(elements) => {
                proof {
                    assert forall|k: int| 0 <= k < elements@.len() implies self.valid(#[trigger] elements@[k]) by {
                        assert(child_indices(self.types@[root.0 as int])[k] == elements@[k]);
                    }
                }
                let resolved = self.find_deep_list(&elements, visited);
                proof {
                    let t = Type::Tuple(resolved);
                    assert forall|k: int| 0 <= k < child_indices(orig.types@[root.0 as int]).len()
                        implies orig.root(#[trigger] child_indices(t)[k]) == orig.root(child_indices(orig.types@[root.0 as int])[k]) by {
                        orig.lemma_root(elements@[k]);
                        orig.lemma_root(orig.root(elements@[k]));
                    }
                    assert(orig.kept_children(t, orig.types@[root.0 as int]));
                }
                let ghost cur = *self;
                self.set_type(root, Type::Tuple(resolved));
                proof {
                    orig.lemma_same_children_set(&cur, self, root.0 as int, Type::Tuple(resolved));
                    let t = Type::Tuple(resolved);
                    assert forall|k: int| 0 <= k < child_indices(t).len()
                        implies #[trigger] self.root(child_indices(t)[k]) == child_indices(t)[k] by {
                        orig.lemma_root(elements@[k]);
                        orig.lemma_root(orig.root(elements@[k]));
                        assert(self.root(resolved@[k]) == orig.root(resolved@[k]));
                    }
                }
            },
            Type::Function { params, ret } => {
                proof {
                    assert forall|k: int| 0 <= k < params@.len() implies self.valid(#[trigger] params@[k]) by {
                        assert(child_indices(self.types@[root.0 as int])[k] == params@[k]);
                    }
                    assert(child_indices(self.types@[root.0 as int])[params@.len() as int] == ret);
                }
                let resolved_params = self.find_deep_list(&params, visited);
                let ghost s1 = *self;
                let resolved_ret = self.find_deep_helper(ret, visited);
                proof {
                    self.lemma_root(ret);
                    orig.lemma_same_children_trans(&s1, self);
                    let t = Type::Function { params: resolved_params, ret: resolved_ret };
                    assert(resolved_ret == orig.root(ret));
                    assert forall|k: int| 0 <= k < child_indices(orig.types@[root.0 as int]).len()
                        implies orig.root(#[trigger] child_indices(t)[k]) == orig.root(child_indices(orig.types@[root.0 as int])[k]) by {
                        if k < params@.len() {
                            assert(child_indices(t)[k] == resolved_params@[k]);
                            assert(child_indices(orig.types@[root.0 as int])[k] == params@[k]);
                            orig.lemma_root(params@[k]);
                            orig.lemma_root(orig.root(params@[k]));
                        } else {
                            assert(child_indices(t)[k] == resolved_ret);
                            assert(child_indices(orig.types@[root.0 as int])[k] == ret);
                            orig.lemma_root(ret);
                            orig.lemma_root(orig.root(ret));
                        }
                    }
                    assert(orig.kept_children(t, orig.types@[root.0 as int]));
                }
                let ghost cur = *self;
                self.set_type(root, Type::Function { params: resolved_params, ret: resolved_ret });
                proof {
                    orig.lemma_same_children_set(&cur, self, root.0 as int,
                        Type::Function { params: resolved_params, ret: resolved_ret });
                    let t = Type::Function { params: resolved_params, ret: resolved_ret };
                    assert forall|k: int| 0 <= k < child_indices(t).len()
                        implies #[trigger] self.root(child_indices(t)[k]) == child_indices(t)[k] by {
                        if k < params@.len() {
                            assert(child_indices(t)[k] == resolved_params@[k]);
                            orig.lemma_root(params@[k]);
                            orig.lemma_root(orig.root(params@[k]));
                            assert(self.root(resolved_params@[k]) == orig.root(resolved_params@[k]));
                        } else {
                            assert(child_indices(t)[k] == resolved_ret);
                            orig.lemma_root(ret);
                            orig.lemma_root(orig.root(ret));
                            assert(self.root(resolved_ret) == orig.root(resolved_ret));
                        }
                    }
                }
            },
            _ => {},
        }
        visited.set(root.0, false);
        proof {
            assert(visited@ =~= v0);
        }
        root
    }

    fn find_deep_list(&mut self, items: &Vec<TypeIdx>, visited: &mut Vec<bool>) -> (r: Vec<TypeIdx>)
        requires
            old(self).wf(),
            old(visited)@.len() == old(self).types@.len(),
            forall|k: int| 0 <= k < items@.len() ==> old(self).valid(#[trigger] items@[k]),
        ensures
            final(self).wf(),
            final(self).keeps_links(old(self)),
            forall|u: TypeIdx| old(self).valid(u) ==> final(self).root(u) == old(self).root(u),
            final(visited)@ == old(visited)@,
            r@.len() == items@.len(),
            forall|k: int| 0 <= k < r@.len() ==> final(self).valid(#[trigger] r@[k]),
            forall|k: int| 0 <= k < r@.len() ==> #[trigger] r@[k] == old(self).root(items@[k]),
            final(self).same_children(old(self)),
        decreases count_false(old(visited)@), items@.len() + 1,
    {
        let ghost orig = *self;
        proof { self.lemma_same_children_refl(); }
        let mut out: Vec<TypeIdx> = Vec::new();
        let mut i: usize = 0;
        while i < items.len()
            invariant
                self.wf(),
                self.keeps_links(&orig),
                forall|u: TypeIdx| orig.valid(u) ==> self.root(u) == orig.root(u),
                visited@ == old(visited)@,
                visited@.len() == self.types@.len(),
                forall|k: int| 0 <= k < items@.len() ==> orig.valid(#[trigger] items@[k]),
                i <= items@.len(),
                out@.len() == i,
                forall|k: int| 0 <= k < i ==> self.valid(#[trigger] out@[k]),
                forall|k: int| 0 <= k < i ==> #[trigger] out@[k] == orig.root(items@[k]),
                self.same_children(&orig),
                orig.wf(),
            decreases items@.len() - i,
        {
            let ghost before = *self;
            let v = self.find_deep_helper(items[i], visited);
            proof { before.lemma_root(items@[i as int]); orig.lemma_same_children_trans(&before, self); }
            out.push(v);
            i += 1;
        }
        out
    }

    fn find_deep_fields(&mut self, fields: &Vec<(String, TypeIdx)>, visited: &mut Vec<bool>) -> (r: Vec<(String, TypeIdx)>)
        requires
            old(self).wf(),
            old(visited)@.len() == old(self).types@.len(),
            forall|k: int| 0 <= k < fields@.len() ==> old(self).valid(#[trigger] fields@[k].1),
        ensures
            final(self).wf(),
            final(self).keeps_links(old(self)),
            forall|u: TypeIdx| old(self).valid(u) ==> final(self).root(u) == old(self).root(u),
            final(visited)@ == old(visited)@,
            r@.len() == fields@.len(),
            forall|k: int| 0 <= k < r@.len() ==> #[trigger] r@[k].0@ == fields@[k].0@,
            forall|k: int| 0 <= k < r@.len() ==> final(self).valid(#[trigger] r@[k].1),
            forall|k: int| 0 <= k < r@.len() ==> #[trigger] r@[k].1 == old(self).root(fields@[k].1),
            final(self).same_children(old(self)),
        decreases count_false(old(visited)@), fields@.len() + 1,
    {
        let ghost orig = *self;
        proof { self.lemma_same_children_refl(); }
        let mut out: Vec<(String, TypeIdx)> = Vec::new();
        let mut i: usize = 0;
        while i < fields.len()
            invariant
                self.wf(),
                self.keeps_links(&orig),
                forall|u: TypeIdx| orig.valid(u) ==> self.root(u) == orig.root(u),
                visited@ == old(visited)@,
                visited@.len() == self.types@.len(),
                forall|k: int| 0 <= k < fields@.len() ==> orig.valid(#[trigger] fields@[k].1),
                i <= fields@.len(),
                out@.len() == i,
                forall|k: int| 0 <= k < i ==> #[trigger] out@[k].0@ == fields@[k].0@,
                forall|k: int| 0 <= k < i ==> self.valid(#[trigger] out@[k].1),
                forall|k: int| 0 <= k < i ==> #[trigger] out@[k].1 == orig.root(fields@[k].1),
                self.same_children(&orig),
                orig.wf(),
            decreases fields@.len() - i,
        {
            let ghost before = *self;
            let v = self.find_deep_helper(fields[i].1, visited);
            proof { before.lemma_root(fields@[i as int].1); orig.lemma_same_children_trans(&before, self); }
            let ghost out0 = out@;
            let name = fields[i].0.clone();
            let ghost nm = name@;
            proof { assert(nm == fields@[i as int].0@); }
            out.push((name, v));
            proof {
                assert(out@ == out0.push((name, v)));
                assert forall|k: int| 0 <= k < i + 1 implies #[trigger] out@[k].0@ == fields@[k].0@ by {
                    if k < i { assert(out0[k].0@ == fields@[k].0@); assert(out@[k] == out0[k]); } else { assert(out@[k].0@ == nm); }
                }
            }
            i += 1;
        }
        out
    }

    /// The text of a type, read with nothing visited yet.
    pub open spec fn text_of(&self, idx: TypeIdx) -> Seq<char> {
        self.type_str(idx, Seq::new(self.type_store().len(), |i: int| false))
    }

    /// A base type is written by its name.
    proof fn lemma_text_of_base(&self, idx: TypeIdx)
        requires
            self.wf(),
            self.valid(idx),
            self.type_store()[idx.0 as int] is Number || self.type_store()[idx.0 as int] is String
                || self.type_store()[idx.0 as int] is Atom,
        ensures
            self.root(idx) == idx,
            self.text_of(idx) == base_name(self.type_store()[idx.0 as int]),
    {
        self.lemma_root(idx);
        assert(!self.is_link(idx.0 as int));
    }

    /// A type whose representative is a base type is written by that
    /// type's name.
    proof fn lemma_text_of_root(&self, idx: TypeIdx)
        requires
            self.wf(),
            self.valid(idx),
            is_base(self.type_store()[self.root(idx).0 as int]),
        ensures
            self.text_of(idx) == base_name(self.type_store()[self.root(idx).0 as int]),
    {
        self.lemma_root(idx);
    }

    /// Each pair of elements at one place is trivially unifiable, or a
    /// mismatch of two types that no rule relates.
    pub open spec fn elements_settled(before: &TypeChecker, e1: Seq<TypeIdx>, e2: Seq<TypeIdx>) -> bool {
        &&& e1.len() == e2.len()
        &&& forall|k: int| 0 <= k < e1.len() ==> Self::unify_trivial(before, #[trigger] e1[k], e2[k])
            || mismatched(before.type_store()[before.root(e1[k]).0 as int], before.type_store()[before.root(e2[k]).0 as int])
    }

    /// After unifying the tuples at `a` and `b`: elements that unified stay
    /// as they were, and at each place that did not, both tuples hold the
    /// same new `Any` type.
    pub open spec fn tuples_settled(before: &TypeChecker, after: &TypeChecker, a: TypeIdx, b: TypeIdx,
        e1: Seq<TypeIdx>, e2: Seq<TypeIdx>) -> bool {
        &&& after.type_store()[a.0 as int] matches Type::Tuple(x)
        &&& after.type_store()[b.0 as int] matches Type::Tuple(y)
        &&& x@.len() == e1.len() && y@.len() == e1.len()
        &&& forall|k: int| 0 <= k < e1.len() ==> if Self::unify_trivial(before, #[trigger] e1[k], e2[k]) {
            x@[k] == e1[k] && y@[k] == e2[k]
        } else {
            x@[k] == y@[k] && before.type_store().len() <= x@[k].0 < after.type_store().len()
                && after.type_store()[x@[k].0 as int] is Any
        }
    }

    /// Each field that both records have is trivially unifiable.
    pub open spec fn shared_trivial(before: &TypeChecker, f1: Seq<(String, TypeIdx)>, f2: Seq<(String, TypeIdx)>) -> bool {
        forall|k: int| 0 <= k < f1.len() ==> (assoc(f2, #[trigger] f1[k].0@) matches Some(t)
            ==> Self::unify_trivial(before, f1[k].1, t))
    }

    /// Unifying `t1` and `t2` needs no work: they are one type, the same
    /// base type, or one of them is `Any` and they are not two structured
    /// types of one kind.
    pub open spec fn unify_trivial(before: &TypeChecker, t1: TypeIdx, t2: TypeIdx) -> bool {
        let a = before.root(t1);
        let b = before.root(t2);
        let ta = before.type_store()[a.0 as int];
        let tb = before.type_store()[b.0 as int];
        ||| a == b
        ||| same_base(ta, tb)
        ||| !(ta is Var) && !(tb is Var) && (ta is Any || tb is Any)
            && !(ta is Array && tb is Array) && !(ta is Hash && tb is Hash)
            && !(ta is Function && tb is Function) && !(ta is Tuple && tb is Tuple)
    }

    /// What unifying the types at `t1` and `t2` gives, from `before` to
    /// `after` with the result `r`, as far as it is settled before any part
    /// of two structured types is unified.
    pub open spec fn unify_outcome(before: &TypeChecker, after: &TypeChecker, t1: TypeIdx, t2: TypeIdx,
        r: Result<(), String>) -> bool {
        let a = before.root(t1);
        let b = before.root(t2);
        let ta = before.type_store()[a.0 as int];
        let tb = before.type_store()[b.0 as int];
        let unchanged = after.type_store() == before.type_store()
            && after.subst() == before.subst();
        &&& a == b ==> r is Ok && unchanged
        &&& a != b && same_base(ta, tb) ==> r is Ok && unchanged
        &&& a != b && mismatched(ta, tb) ==> unchanged && (r matches Err(m) && m@ ==
            "Type mismatch: cannot unify '"@ + before.text_of(a) + "' with '"@
                + before.text_of(b) + "'"@)
        &&& a != b && ta is Var ==> {
            let id = var_id(ta)->0;
            if before.occurs(id, b, Seq::new(before.type_store().len(), |i: int| false)) {
                unchanged && (r matches Err(m) && m@ == "Infinite type detected (occurs check failed)"@)
            } else {
                r is Ok && after.type_store() == before.type_store()
                    && after.subst() == before.subst().insert(id, b)
            }
        }
        &&& a != b && !(ta is Var) && !same_base(ta, tb) && tb is Var ==> {
            let id = var_id(tb)->0;
            if before.occurs(id, a, Seq::new(before.type_store().len(), |i: int| false)) {
                unchanged && (r matches Err(m) && m@ == "Infinite type detected (occurs check failed)"@)
            } else {
                r is Ok && after.type_store() == before.type_store()
                    && after.subst() == before.subst().insert(id, a)
            }
        }
        &&& a != b && !(ta is Var) && !(tb is Var) && (ta is Any || tb is Any)
            && !(ta is Array && tb is Array) && !(ta is Hash && tb is Hash)
            && !(ta is Function && tb is Function) && !(ta is Tuple && tb is Tuple)
            ==> r is Ok && unchanged
        &&& a != b && !(ta is Var) && !(tb is Var) ==> structured_outcome(ta, tb, unchanged, r)
    }

    /// Unifies the types at `t1` and `t2`: afterwards they stand for the same
    /// type, or an error says why they cannot.
    pub fn unify(&mut self, t1: TypeIdx, t2: TypeIdx) -> (r: Result<(), String>)
        requires
            old(self).wf(),
            old(self).valid(t1),
            old(self).valid(t2),
        ensures
            final(self).wf(),
            final(self).extends(old(self)),
            Self::unify_outcome(old(self), final(self), t1, t2, r),
            Self::unify_trivial(old(self), t1, t2) ==> r is Ok && *final(self) == *old(self),
            ({
                let a = old(self).root(t1);
                let b = old(self).root(t2);
                old(self).type_store()[a.0 as int] matches Type::Array(i1) ==> (
                    old(self).type_store()[b.0 as int] matches Type::Array(i2) ==> (
                        a != b ==> Self::unify_outcome(old(self), final(self), i1, i2, r)))
            }),
            r is Ok ==> final(self).agree(t1, t2),
            ({
                let a = old(self).root(t1);
                let b = old(self).root(t2);
                old(self).type_store()[a.0 as int] matches Type::Tuple(e1) ==> (
                    old(self).type_store()[b.0 as int] matches Type::Tuple(e2) ==> (
                        a != b && Self::elements_settled(old(self), e1@, e2@) ==> r is Ok
                            && final(self).subst() == old(self).subst()
                            && Self::tuples_settled(old(self), final(self), a, b, e1@, e2@)))
            }),
            ({
                let a = old(self).root(t1);
                let b = old(self).root(t2);
                old(self).type_store()[a.0 as int] matches Type::Hash(f1) ==> (
                    old(self).type_store()[b.0 as int] matches Type::Hash(f2) ==> (
                        a != b && (names_in(f1@, f2@) || names_in(f2@, f1@))
                        && Self::shared_trivial(old(self), f1@, f2@) ==> {
                            &&& r is Ok
                            &&& final(self).subst() == old(self).subst()
                            &&& names_in(f1@, f2@) ==> widened(old(self), final(self), a, f1@, f2@)
                            &&& !names_in(f1@, f2@) ==> widened(old(self), final(self), b, f2@, f1@)
                        }))
            }),
            ({
                let a = old(self).root(t1);
                let b = old(self).root(t2);
                old(self).type_store()[a.0 as int] matches Type::Function { params: p1, ret: r1 } ==> (
                    old(self).type_store()[b.0 as int] matches Type::Function { params: p2, ret: r2 } ==> (
                        a != b && r is Ok ==> (forall|k: int| 0 <= k < p1@.len() ==> #[trigger] final(self).agree(p1@[k], p2@[k]))
                            && final(self).agree(r1, r2)))
            }),
    {
        let r = self.unify_within(t1, t2, usize::MAX);
        proof {
            if r is Ok {
                assert(Self::unify_outcome(old(self), self, t1, t2, r));
                Self::lemma_unify_agree(old(self), self, t1, t2);
            }
        }
        r
    }

    /// `unify`, recursing at most `fuel` levels deep into structured types.
    fn unify_within(&mut self, t1: TypeIdx, t2: TypeIdx, fuel: usize) -> (r: Result<(), String>)
        requires
            old(self).wf(),
            old(self).valid(t1),
            old(self).valid(t2),
        ensures
            final(self).wf(),
            final(self).extends(old(self)),
            fuel > 0 && Self::unify_trivial(old(self), t1, t2) ==> r is Ok && *final(self) == *old(self),
            fuel > 1 ==> ({
                let a = old(self).root(t1);
                let b = old(self).root(t2);
                old(self).type_store()[a.0 as int] matches Type::Array(i1) ==> (
                    old(self).type_store()[b.0 as int] matches Type::Array(i2) ==> (
                        a != b ==> Self::unify_outcome(old(self), final(self), i1, i2, r)))
            }),
            fuel > 0 ==> ({
                let a = old(self).root(t1);
                let b = old(self).root(t2);
                let ta = old(self).type_store()[a.0 as int];
                let tb = old(self).type_store()[b.0 as int];
                let unchanged = final(self).type_store() == old(self).type_store()
                    && final(self).subst() == old(self).subst();
                &&& a == b ==> r is Ok && unchanged
                &&& a != b && same_base(ta, tb) ==> r is Ok && unchanged
                &&& a != b && mismatched(ta, tb) ==> unchanged && (r matches Err(m) && m@ ==
                    "Type mismatch: cannot unify '"@ + old(self).text_of(a) + "' with '"@
                        + old(self).text_of(b) + "'"@)
                &&& a != b && ta is Var ==> {
                    let id = var_id(ta)->0;
                    if old(self).occurs(id, b, Seq::new(old(self).type_store().len(), |i: int| false)) {
                        unchanged && (r matches Err(m) && m@ == "Infinite type detected (occurs check failed)"@)
                    } else {
                        r is Ok && final(self).type_store() == old(self).type_store()
                            && final(self).subst() == old(self).subst().insert(id, b)
                    }
                }
                &&& a != b && !(ta is Var) && !same_base(ta, tb) && tb is Var ==> {
                    let id = var_id(tb)->0;
                    if old(self).occurs(id, a, Seq::new(old(self).type_store().len(), |i: int| false)) {
                        unchanged && (r matches Err(m) && m@ == "Infinite type detected (occurs check failed)"@)
                    } else {
                        r is Ok && final(self).type_store() == old(self).type_store()
                            && final(self).subst() == old(self).subst().insert(id, a)
                    }
                }
                &&& a != b && !(ta is Var) && !(tb is Var) && (ta is Any || tb is Any)
                    && !(ta is Array && tb is Array) && !(ta is Hash && tb is Hash)
                    && !(ta is Function && tb is Function) && !(ta is Tuple && tb is Tuple)
                    ==> r is Ok && unchanged
                &&& a != b && !(ta is Var) && !(tb is Var) ==> structured_outcome(ta, tb, unchanged, r)
            }),
            fuel > 0 && old(self).root(t1) == old(self).root(t2) ==> r is Ok && *final(self) == *old(self),
            fuel == 0 ==> r is Err,
            fuel > 1 ==> ({
                let a = old(self).root(t1);
                let b = old(self).root(t2);
                old(self).type_store()[a.0 as int] matches Type::Tuple(e1) ==> (
                    old(self).type_store()[b.0 as int] matches Type::Tuple(e2) ==> (
                        a != b && Self::elements_settled(old(self), e1@, e2@) ==> r is Ok
                            && final(self).subst() == old(self).subst()
                            && Self::tuples_settled(old(self), final(self), a, b, e1@, e2@)))
            }),
            fuel > 1 ==> ({
                let a = old(self).root(t1);
                let b = old(self).root(t2);
                old(self).type_store()[a.0 as int] matches Type::Hash(f1) ==> (
                    old(self).type_store()[b.0 as int] matches Type::Hash(f2) ==> (
                        a != b && (names_in(f1@, f2@) || names_in(f2@, f1@))
                        && Self::shared_trivial(old(self), f1@, f2@) ==> {
                            &&& r is Ok
                            &&& final(self).subst() == old(self).subst()
                            &&& names_in(f1@, f2@) ==> widened(old(self), final(self), a, f1@, f2@)
                            &&& !names_in(f1@, f2@) ==> widened(old(self), final(self), b, f2@, f1@)
                        }))
            }),
            fuel > 0 ==> ({
                let a = old(self).root(t1);
                let b = old(self).root(t2);
                old(self).type_store()[a.0 as int] matches Type::Function { params: p1, ret: r1 } ==> (
                    old(self).type_store()[b.0 as int] matches Type::Function { params: p2, ret: r2 } ==> (
                        a != b && r is Ok ==> (forall|k: int| 0 <= k < p1@.len() ==> #[trigger] final(self).agree(p1@[k], p2@[k]))
                            && final(self).agree(r1, r2)))
            }),
        decreases fuel, 0nat,
    {
        if fuel == 0 {
            return Err(owned("Type is nested too deeply to unify"));
        }
        let ghost orig = *self;
        let t1 = self.find(t1);
        let t2 = self.find(t2);
        if t1 == t2 {
            return Ok(());
        }
        proof {
            assert(type_wf(self.types@[t1.0 as int], self.types@.len()));
            assert(type_wf(self.types@[t2.0 as int], self.types@.len()));
        }
        let ty1 = copy_type(&self.types[t1.0]);
        let ty2 = copy_type(&self.types[t2.0]);
        match (ty1, ty2) {
            (Type::Number, Type::Number) => Ok(()),
            (Type::String, Type::String) => Ok(()),
            (Type::Atom, Type::Atom) => Ok(()),
            (Type::Var(id1), _) => {
                if self.occurs_in(id1, t2) {
                    return Err(owned("Infinite type detected (occurs check failed)"));
                }
                proof {
                    self.lemma_occurs_root_var(id1, t2);
                }
                self.bind(id1, t2);
                Ok(())
            },
            (_, Type::Var(id2)) => {
                if self.occurs_in(id2, t1) {
                    return Err(owned("Infinite type detected (occurs check failed)"));
                }
                proof {
                    self.lemma_occurs_root_var(id2, t1);
                }
                self.bind(id2, t1);
                Ok(())
            },
            (Type::Array(inner1), Type::Array(inner2)) => {
                proof {
                    assert(child_indices(self.types@[t1.0 as int])[0] == inner1);
                    assert(child_indices(self.types@[t2.0 as int])[0] == inner2);
                }
                self.unify_within(inner1, inner2, fuel - 1)
            },
            (Type::Hash(fields1), Type::Hash(fields2)) => {
                proof {
                    assert forall|k: int| 0 <= k < fields1@.len() implies self.valid(#[trigger] fields1@[k].1) by {
                        assert(child_indices(self.types@[t1.0 as int])[k] == fields1@[k].1);
                    }
                    assert forall|k: int| 0 <= k < fields2@.len() implies self.valid(#[trigger] fields2@[k].1) by {
                        assert(child_indices(self.types@[t2.0 as int])[k] == fields2@[k].1);
                    }
                }
                self.unify_records(t1, t2, fields1, fields2, fuel - 1)
            },
            (Type::Function { params: p1, ret: r1 }, Type::Function { params: p2, ret: r2 }) => {
                if p1.len() != p2.len() {
                    return Err(join3(
                        join2("Function arity mismatch: expected ", decimal_string(p1.len()).as_str()).as_str(),
                        " arguments, got ",
                        decimal_string(p2.len()).as_str(),
                    ));
                }
                proof {
                    assert forall|k: int| 0 <= k < p1@.len() implies self.valid(#[trigger] p1@[k]) by {
                        assert(child_indices(self.types@[t1.0 as int])[k] == p1@[k]);
                    }
                    assert forall|k: int| 0 <= k < p2@.len() implies self.valid(#[trigger] p2@[k]) by {
                        assert(child_indices(self.types@[t2.0 as int])[k] == p2@[k]);
                    }
                    assert(child_indices(self.types@[t1.0 as int])[p1@.len() as int] == r1);
                    assert(child_indices(self.types@[t2.0 as int])[p2@.len() as int] == r2);
                }
                let ghost before0 = *self;
                let res = self.unify_lists(&p1, &p2, fuel - 1);
                proof { self.lemma_extends_trans(&before0, &orig); }
                if res.is_err() {
                    return res;
                }
                let ghost before = *self;
                let res = self.unify_within(r1, r2, fuel - 1);
                proof {
                    self.lemma_extends_trans(&before, &orig);
                    if res is Ok {
                        assert(Self::unify_outcome(&before, self, r1, r2, res));
                        Self::lemma_unify_agree(&before, self, r1, r2);
                        assert forall|k: int| 0 <= k < p1@.len() implies #[trigger] self.agree(p1@[k], p2@[k]) by {
                            assert(before.agree(p1@[k], p2@[k]));
                            self.lemma_agree_kept(&before, p1@[k], p2@[k]);
                        }
                    }
                }
                res
            },
            (Type::Tuple(elements1), Type::Tuple(elements2)) => {
                if elements1.len() != elements2.len() {
                    return Err(join3(
                        join2("Tuple size mismatch: expected size ", decimal_string(elements1.len()).as_str()).as_str(),
                        ", got ",
                        decimal_string(elements2.len()).as_str(),
                    ));
                }
                proof {
                    assert forall|k: int| 0 <= k < elements1@.len() implies self.valid(#[trigger] elements1@[k]) by {
                        assert(child_indices(self.types@[t1.0 as int])[k] == elements1@[k]);
                    }
                    assert forall|k: int| 0 <= k < elements2@.len() implies self.valid(#[trigger] elements2@[k]) by {
                        assert(child_indices(self.types@[t2.0 as int])[k] == elements2@[k]);
                    }
                }
                let ghost tt = fuel > 1 && Self::elements_settled(&orig, elements1@, elements2@);
                let ghost e1 = elements1@;
                let ghost e2 = elements2@;
                let mut i: usize = 0;
                while i < elements1.len()
                    invariant
                        self.wf(),
                        self.extends(&orig),
                        *old(self) == orig,
                        fuel > 0,
                        elements1@.len() == elements2@.len(),
                        i <= elements1@.len(),
                        forall|k: int| 0 <= k < elements1@.len() ==> orig.valid(#[trigger] elements1@[k]),
                        forall|k: int| 0 <= k < elements2@.len() ==> orig.valid(#[trigger] elements2@[k]),
                        shape(orig.types@[t1.0 as int]) == (7int, elements1@.len() as int),
                        shape(orig.types@[t2.0 as int]) == (7int, elements2@.len() as int),
                        orig.valid(t1),
                        orig.valid(t2),
                        e1 == elements1@,
                        e2 == elements2@,
                        t1 != t2,
                        orig.wf(),
                        tt == (fuel > 1 && Self::elements_settled(&orig, elements1@, elements2@)),
                        tt ==> {
                            &&& self.subst() == orig.subst()
                            &&& forall|u: TypeIdx| orig.valid(u) ==> #[trigger] self.root(u) == orig.root(u)
                            &&& forall|j: int| 0 <= j < orig.types@.len() && j != t1.0 && j != t2.0
                                ==> #[trigger] self.types@[j] == orig.types@[j]
                            &&& self.types@[t1.0 as int] matches Type::Tuple(x)
                            &&& self.types@[t2.0 as int] matches Type::Tuple(y)
                            &&& x@.len() == e1.len() && y@.len() == e1.len()
                            &&& forall|k: int| i <= k < e1.len() ==> #[trigger] x@[k] == e1[k]
                            &&& forall|k: int| i <= k < e1.len() ==> #[trigger] y@[k] == e2[k]
                            &&& forall|k: int| 0 <= k < i ==> if Self::unify_trivial(&orig, #[trigger] e1[k], e2[k]) {
                                x@[k] == e1[k] && y@[k] == e2[k]
                            } else {
                                x@[k] == y@[k] && orig.types@.len() <= x@[k].0 < self.types@.len()
                                    && self.types@[x@[k].0 as int] is Any
                            }
                            &&& forall|j: int| orig.types@.len() <= j < self.types@.len() ==> #[trigger] self.types@[j] is Any
                        },
                    decreases elements1@.len() - i,
                {
                    let ghost before = *self;
                    proof {
                        if tt {
                            let r1 = orig.root(e1[i as int]);
                            let r2 = orig.root(e2[i as int]);
                            orig.lemma_root(e1[i as int]);
                            orig.lemma_root(e2[i as int]);
                            assert(self.root(e1[i as int]) == r1);
                            assert(self.root(e2[i as int]) == r2);
                            if r1 != t1 && r1 != t2 {
                                assert(self.types@[r1.0 as int] == orig.types@[r1.0 as int]);
                            }
                            if r2 != t1 && r2 != t2 {
                                assert(self.types@[r2.0 as int] == orig.types@[r2.0 as int]);
                            }
                            assert(shape(self.types@[t1.0 as int]).0 == 7);
                            assert(shape(self.types@[t2.0 as int]).0 == 7);
                            assert(self.types@[t1.0 as int] is Tuple);
                            assert(self.types@[t2.0 as int] is Tuple);
                            assert(orig.types@[t1.0 as int] is Tuple);
                            assert(orig.types@[t2.0 as int] is Tuple);
                            let b1 = self.types@[r1.0 as int];
                            let o1 = orig.types@[r1.0 as int];
                            let b2 = self.types@[r2.0 as int];
                            let o2 = orig.types@[r2.0 as int];
                            assert((b1 is Tuple && o1 is Tuple) || b1 == o1);
                            assert((b2 is Tuple && o2 is Tuple) || b2 == o2);
                            assert(Self::unify_trivial(&orig, e1[i as int], e2[i as int])
                                == Self::unify_trivial(self, e1[i as int], e2[i as int]));
                            assert(mismatched(o1, o2) == mismatched(b1, b2));
                        }
                    }
                    let res = self.unify_within(elements1[i], elements2[i], fuel - 1);
                    proof { self.lemma_extends_trans(&before, &orig); }
                    if res.is_err() {
                        let ghost before_any = *self;
                        let any_ty = self.alloc_type(Type::Any);
                        proof { self.lemma_extends_trans(&before_any, &orig); }
                        let ghost before_r1 = *self;
                        self.replace_tuple_element(t1, i, any_ty);
                        let ghost before_r2 = *self;
                        self.replace_tuple_element(t2, i, any_ty);
                        proof {
                            if tt {
                                assert(!Self::unify_trivial(&orig, e1[i as int], e2[i as int]));
                                assert(before_any.types@ == before.types@);
                                assert(before_any.subst() == before.subst());
                                assert forall|u: TypeIdx| orig.valid(u) implies #[trigger] self.root(u) == orig.root(u) by {
                                    before_any.lemma_root_through(&before, u);
                                    before.lemma_root(u);
                                    assert(!before_any.is_link(before.root(u).0 as int));
                                    before_any.lemma_root(before.root(u));
                                    before_r2.lemma_root_extend(&before_r1, u);
                                    self.lemma_root_extend(&before_r2, u);
                                }
                                let x0 = before.types@[t1.0 as int]->Tuple_0;
                                let y0 = before.types@[t2.0 as int]->Tuple_0;
                                assert(before_r1.types@[t1.0 as int] == before.types@[t1.0 as int]);
                                assert(before_r1.types@[t2.0 as int] == before.types@[t2.0 as int]);
                                assert(before_r2.types@[t2.0 as int] == before.types@[t2.0 as int]);
                                let x1 = self.types@[t1.0 as int]->Tuple_0;
                                let y1 = self.types@[t2.0 as int]->Tuple_0;
                                assert(x1@ == x0@.update(i as int, any_ty));
                                assert(y1@ == y0@.update(i as int, any_ty));
                                assert(self.types@[any_ty.0 as int] is Any);
                                assert(self.subst() == orig.subst());
                                assert forall|j: int| 0 <= j < orig.types@.len() && j != t1.0 && j != t2.0
                                    implies #[trigger] self.types@[j] == orig.types@[j] by {
                                    assert(self.types@[j] == before.types@[j]);
                                }
                                assert forall|j: int| orig.types@.len() <= j < self.types@.len()
                                    implies #[trigger] self.types@[j] is Any by {
                                    if j < before.types@.len() {
                                        assert(self.types@[j] == before.types@[j]);
                                    }
                                }
                                assert forall|k: int| 0 <= k < i + 1 implies if Self::unify_trivial(&orig, #[trigger] e1[k], e2[k]) {
                                    x1@[k] == e1[k] && y1@[k] == e2[k]
                                } else {
                                    x1@[k] == y1@[k] && orig.types@.len() <= x1@[k].0 < self.types@.len()
                                        && self.types@[x1@[k].0 as int] is Any
                                } by {
                                    if k < i {
                                        assert(x1@[k] == x0@[k] && y1@[k] == y0@[k]);
                                        if !Self::unify_trivial(&orig, e1[k], e2[k]) {
                                            assert(self.types@[x1@[k].0 as int] == before.types@[x0@[k].0 as int]);
                                        }
                                    }
                                }
                            }
                        }
                    } else {
                        proof {
                            if tt {
                                assert(Self::unify_trivial(&orig, e1[i as int], e2[i as int]));
                                assert(*self == before);
                            }
                        }
                    }
                    i += 1;
                }
                proof {
                    if tt {
                        assert(Self::tuples_settled(&orig, self, t1, t2, e1, e2));
                    }
                }
                Ok(())
            },
            (Type::Any, _) => Ok(()),
            (_, Type::Any) => Ok(()),
            _ => {
                let s1 = self.type_to_string(t1);
                let s2 = self.type_to_string(t2);
                Err(join3(join3("Type mismatch: cannot unify '", s1.as_str(), "' with '").as_str(), s2.as_str(), "'"))
            },
        }
    }

    /// If variable `id` does not occur in the type at `t`, the root of `t` is
    /// not that variable.
    proof fn lemma_occurs_root_var(&self, id: usize, t: TypeIdx)
        requires
            self.wf(),
            self.valid(t),
            !self.occurs(id, t, Seq::new(self.types@.len(), |i: int| false)),
        ensures
            var_id(self.types@[self.root(t).0 as int]) != Some(id),
    {
        self.lemma_root(t);
        let visited = Seq::new(self.types@.len(), |i: int| false);
        assert(!visited[self.root(t).0 as int]);
    }

    /// Sets element `i` of the tuple at `t` to `v`.
    fn replace_tuple_element(&mut self, t: TypeIdx, i: usize, v: TypeIdx)
        requires
            old(self).wf(),
            old(self).valid(t),
            old(self).valid(v),
            shape(old(self).types@[t.0 as int]).0 == 7,
            (i as int) < shape(old(self).types@[t.0 as int]).1,
        ensures
            final(self).wf(),
            final(self).keeps_links(old(self)),
            final(self).extends(old(self)),
            forall|j: int| 0 <= j < old(self).types@.len() && j != t.0 ==> #[trigger] final(self).types@[j] == old(self).types@[j],
            match (old(self).types@[t.0 as int], final(self).types@[t.0 as int]) {
                (Type::Tuple(a), Type::Tuple(b)) => b@ == a@.update(i as int, v),
                _ => false,
            },
    {
        proof { assert(type_wf(self.types@[t.0 as int], self.types@.len())); }
        let current = copy_type(&self.types[t.0]);
        if let Type::Tuple(mut el) = current {
            proof {
                assert forall|k: int| 0 <= k < el@.len() implies self.valid(#[trigger] el@[k]) by {
                    assert(child_indices(self.types@[t.0 as int])[k] == el@[k]);
                }
            }
            el.set(i, v);
            self.set_type(t, Type::Tuple(el));
        }
    }

    /// Unifies two records: one's field names must include the other's;
    /// shared fields are unified, and the smaller record gains the fields
    /// that it lacked.
    fn unify_records(
        &mut self,
        t1: TypeIdx,
        t2: TypeIdx,
        fields1: Vec<(String, TypeIdx)>,
        fields2: Vec<(String, TypeIdx)>,
        fuel: usize,
    ) -> (r: Result<(), String>)
        requires
            old(self).wf(),
            old(self).valid(t1),
            old(self).valid(t2),
            old(self).types@[t1.0 as int] is Hash,
            old(self).types@[t2.0 as int] is Hash,
            distinct_names(fields1@),
            distinct_names(fields2@),
            forall|k: int| 0 <= k < fields1@.len() ==> old(self).valid(#[trigger] fields1@[k].1),
            forall|k: int| 0 <= k < fields2@.len() ==> old(self).valid(#[trigger] fields2@[k].1),
        ensures
            final(self).wf(),
            final(self).extends(old(self)),
            !names_in(fields1@, fields2@) && !names_in(fields2@, fields1@) ==> final(self).type_store()
                == old(self).type_store() && final(self).subst() == old(self).subst()
                && (r matches Err(m) && m@ == "Record type mismatch: incompatible fields. Got "@
                + field_set_text(fields1@) + ", expected "@ + field_set_text(fields2@)),
            fuel > 0 && (names_in(fields1@, fields2@) || names_in(fields2@, fields1@))
                && Self::shared_trivial(old(self), fields1@, fields2@) ==> {
                &&& r is Ok
                &&& final(self).subst() == old(self).subst()
                &&& names_in(fields1@, fields2@) ==> widened(old(self), final(self), t1, fields1@, fields2@)
                &&& !names_in(fields1@, fields2@) ==> widened(old(self), final(self), t2, fields2@, fields1@)
            },
        decreases fuel, 1nat,
    {
        let ghost orig = *self;
        let ghost triv = fuel > 0 && Self::shared_trivial(old(self), fields1@, fields2@);
        let sub12 = names_within(&fields1, &fields2);
        let sub21 = names_within(&fields2, &fields1);
        if !sub12 && !sub21 {
            let got = debug_name_set(&fields1);
            let expected = debug_name_set(&fields2);
            return Err(join3(
                join2("Record type mismatch: incompatible fields. Got ", got.as_str()).as_str(),
                ", expected ",
                expected.as_str(),
            ));
        }
        let mut i: usize = 0;
        while i < fields1.len()
            invariant
                self.wf(),
                self.extends(&orig),
                *old(self) == orig,
                i <= fields1@.len(),
                names_in(fields1@, fields2@) || names_in(fields2@, fields1@),
                forall|k: int| 0 <= k < fields1@.len() ==> orig.valid(#[trigger] fields1@[k].1),
                forall|k: int| 0 <= k < fields2@.len() ==> orig.valid(#[trigger] fields2@[k].1),
                triv == (fuel > 0 && Self::shared_trivial(&orig, fields1@, fields2@)),
                triv ==> *self == orig,
            decreases fields1@.len() - i,
        {
            match assoc_position(&fields2, fields1[i].0.as_str()) {
                Some(j) => {
                    let ghost before = *self;
                    proof {
                        if triv {
                            assert(assoc(fields2@, fields1@[i as int].0@) == Some(fields2@[j as int].1));
                            assert(Self::unify_trivial(&orig, fields1@[i as int].1, fields2@[j as int].1));
                        }
                    }
                    let res = self.unify_within(fields1[i].1, fields2[j].1, fuel);
                    proof { self.lemma_extends_trans(&before, &orig); }
                    if res.is_err() {
                        return res;
                    }
                },
                None => {},
            }
            i += 1;
        }
        if sub12 {
            let merged = merge_fields(&fields1, &fields2, Ghost(orig.types@.len() as nat));
            proof { self.lemma_type_kept(&orig, t1); }
            let ghost before = *self;
            self.set_type(t1, Type::Hash(merged));
            proof {
                self.lemma_extends_trans(&before, &orig);
                if triv {
                    assert(self.type_store()[t1.0 as int] == Type::Hash(merged));
                }
            }
        } else if sub21 {
            let merged = merge_fields(&fields2, &fields1, Ghost(orig.types@.len() as nat));
            proof { self.lemma_type_kept(&orig, t2); }
            let ghost before = *self;
            self.set_type(t2, Type::Hash(merged));
            proof {
                self.lemma_extends_trans(&before, &orig);
                if triv {
                    assert(self.type_store()[t2.0 as int] == Type::Hash(merged));
                }
            }
        }
        Ok(())
    }

    /// A type that fitted an expression's form (looked at through its
    /// location wrappers) still fits it after the stores grew.
    proof fn lemma_fits_kept(&self, old: &Self, t: TypeIdx, e: Expression)
        requires
            self.grows(old),
            old.valid(t),
            fits_form(old.types@[t.0 as int], spec_unwrap_loc(e)),
        ensures
            fits_form(self.types@[t.0 as int], e),
            fits_form(self.types@[t.0 as int], spec_unwrap_loc(e)),
    {
        assert(shape(self.types@[t.0 as int]) == shape(old.types@[t.0 as int]));
        lemma_fits_unwrap(old.types@[t.0 as int], e);
        lemma_fits_shape(old.types@[t.0 as int], self.types@[t.0 as int], e);
        lemma_fits_unwrap(self.types@[t.0 as int], e);
    }

    /// Growing twice is growing.
    proof fn lemma_grows_trans(&self, mid: &Self, old: &Self)
        requires
            self.grows(mid),
            mid.grows(old),
        ensures
            self.grows(old),
    {
        assert forall|i: int| 0 <= i < old.types@.len() implies shape(#[trigger] self.types@[i]) == shape(old.types@[i]) by {
            assert(shape(mid.types@[i]) == shape(old.types@[i]));
        }
    }

    /// A type's variant is kept by `extends`.
    proof fn lemma_type_kept(&self, old: &Self, t: TypeIdx)
        requires
            self.extends(old),
            old.valid(t),
        ensures
            self.valid(t),
            shape(self.types@[t.0 as int]) == shape(old.types@[t.0 as int]),
    {
    }

    /// Unifies two lists of types of the same length, pair by pair, stopping
    /// at the first error.
    fn unify_lists(&mut self, p1: &Vec<TypeIdx>, p2: &Vec<TypeIdx>, fuel: usize) -> (r: Result<(), String>)
        requires
            old(self).wf(),
            p1@.len() == p2@.len(),
            forall|k: int| 0 <= k < p1@.len() ==> old(self).valid(#[trigger] p1@[k]),
            forall|k: int| 0 <= k < p2@.len() ==> old(self).valid(#[trigger] p2@[k]),
        ensures
            final(self).wf(),
            final(self).extends(old(self)),
            p1@.len() == 0 ==> r is Ok && *final(self) == *old(self),
            fuel > 0 && (forall|k: int| 0 <= k < p1@.len() ==> old(self).root(#[trigger] p1@[k]) == old(self).root(p2@[k]))
                ==> r is Ok && *final(self) == *old(self),
            r is Ok ==> forall|k: int| 0 <= k < p1@.len() ==> #[trigger] final(self).agree(p1@[k], p2@[k]),
        decreases fuel, 1nat,
    {
        let ghost orig = *self;
        let mut i: usize = 0;
        while i < p1.len()
            invariant
                self.wf(),
                self.extends(&orig),
                *old(self) == orig,
                p1@.len() == p2@.len(),
                i <= p1@.len(),
                i == 0 ==> *self == orig,
                fuel > 0 && (forall|k: int| 0 <= k < p1@.len() ==> orig.root(#[trigger] p1@[k]) == orig.root(p2@[k]))
                    ==> *self == orig,
                forall|k: int| 0 <= k < p1@.len() ==> orig.valid(#[trigger] p1@[k]),
                forall|k: int| 0 <= k < p2@.len() ==> orig.valid(#[trigger] p2@[k]),
                forall|k: int| 0 <= k < i ==> #[trigger] self.agree(p1@[k], p2@[k]),
                orig.wf(),
            decreases p1@.len() - i,
        {
            let ghost before = *self;
            let res = self.unify_within(p1[i], p2[i], fuel);
            proof { self.lemma_extends_trans(&before, &orig); }
            if res.is_err() {
                return res;
            }
            proof {
                assert(Self::unify_outcome(&before, self, p1@[i as int], p2@[i as int], res));
                Self::lemma_unify_agree(&before, self, p1@[i as int], p2@[i as int]);
                assert forall|k: int| 0 <= k < i + 1 implies #[trigger] self.agree(p1@[k], p2@[k]) by {
                    if k < i {
                        self.lemma_agree_kept(&before, p1@[k], p2@[k]);
                    }
                }
            }
            i += 1;
        }
        Ok(())
    }

    /// The representative of `idx` (see `root`).
    pub fn find(&self, idx: TypeIdx) -> (r: TypeIdx)
        requires
            self.wf(),
            self.valid(idx),
        ensures
            r == self.root(idx),
            self.valid(r),
            !self.is_link(r.0 as int),
        decreases self.rank(idx.0 as int),
    {
        match &self.types[idx.0] {
            Type::Var(id) => match self.substitutions.get(id) {
                Some(s) => self.find(*s),
                None => idx,
            },
            _ => idx,
        }
    }
}


impl TypeChecker {
    /// The stores only grew: every valid index stays valid.
    pub open spec fn grows(&self, old: &Self) -> bool {
        &&& self.type_store().len() >= old.type_store().len()
        &&& self.env_store().len() >= old.env_store().len()
        &&& forall|i: int| 0 <= i < old.type_store().len()
            ==> shape(#[trigger] self.type_store()[i]) == shape(old.type_store()[i])
    }

    /// An error at the place being checked.
    fn fail<T>(&self, message: String) -> (r: Result<T, Diagnostic>)
        ensures
            r matches Err(d) && d.message@ == message@ && d.line == self.current_line
                && d.col == self.current_col,
    {
        Err(Diagnostic { line: self.current_line, col: self.current_col, message, hint: None })
    }

    /// `unify`, with its error placed where checking is.
    fn unify_here(&mut self, t1: TypeIdx, t2: TypeIdx) -> (r: Result<(), Diagnostic>)
        requires
            old(self).wf(),
            old(self).valid(t1),
            old(self).valid(t2),
        ensures
            final(self).wf(),
            final(self).extends(old(self)),
            final(self).grows(old(self)),
            Self::unify_trivial(old(self), t1, t2) ==> r is Ok && *final(self) == *old(self),
            match r {
                Ok(()) => Self::unify_outcome(old(self), final(self), t1, t2, Ok(())),
                Err(d) => Self::unify_outcome(old(self), final(self), t1, t2, Err(d.message))
                    && d.line == old(self).line() && d.col == old(self).col(),
            },
    {
        match self.unify(t1, t2) {
            Ok(()) => Ok(()),
            Err(e) => self.fail(e),
        }
    }

    /// Allocates a type with no indices in it.
    fn alloc_plain(&mut self, ty: Type) -> (idx: TypeIdx)
        requires
            old(self).wf(),
            child_indices(ty).len() == 0,
            !(ty is Hash),
        ensures
            final(self).wf(),
            final(self).extends(old(self)),
            final(self).grows(old(self)),
            final(self).valid(idx),
            idx.0 == old(self).type_store().len(),
            final(self).type_store() == old(self).type_store().push(ty),
            final(self).subst() == old(self).subst(),
            forall|t: TypeIdx| old(self).valid(t) ==> final(self).root(t) == old(self).root(t),
            !(ty is Var) ==> final(self).root(idx) == idx,
            final(self).return_type() == old(self).return_type(),
            final(self).env_store() == old(self).env_store(),
            final(self).line() == old(self).line(),
            final(self).col() == old(self).col(),
    {
        let idx = self.alloc_type(ty);
        proof {
            assert(!self.is_link(idx.0 as int) || ty is Var);
        }
        idx
    }

    /// A fresh type variable in the store.
    fn alloc_var(&mut self) -> (idx: TypeIdx)
        requires
            old(self).wf(),
        ensures
            final(self).wf(),
            final(self).extends(old(self)),
            final(self).grows(old(self)),
            final(self).valid(idx),
            final(self).subst() == old(self).subst(),
            forall|t: TypeIdx| old(self).valid(t) ==> final(self).root(t) == old(self).root(t),
            final(self).return_type() == old(self).return_type(),
    {
        let ghost orig = *self;
        let v = self.new_var();
        proof {
            assert forall|t: TypeIdx| orig.valid(t) implies self.root(t) == orig.root(t) by {
                self.lemma_root_extend(&orig, t);
            }
        }
        self.alloc_type(v)
    }

    /// The type that an annotation names.
    fn map_type_ann(&mut self, ann: &TypeAnn) -> (t: TypeIdx)
        requires
            old(self).wf(),
        ensures
            final(self).wf(),
            final(self).extends(old(self)),
            final(self).grows(old(self)),
            final(self).valid(t),
            *ann is Atom ==> final(self).type_store()[t.0 as int] is Atom,
            ann_base(*ann) matches Some(bt) ==> final(self).type_store()[t.0 as int] == bt,
            *ann is Any ==> final(self).type_store()[t.0 as int] is Any,
        decreases ann,
    {
        match ann {
            TypeAnn::Number => self.alloc_plain(Type::Number),
            TypeAnn::String => self.alloc_plain(Type::String),
            TypeAnn::Atom => self.alloc_plain(Type::Atom),
            TypeAnn::Any => self.alloc_plain(Type::Any),
            TypeAnn::Array(inner) => {
                let mapped_inner = self.map_type_ann(inner);
                self.alloc_type(Type::Array(mapped_inner))
            },
            TypeAnn::Hash(fields) => {
                let mapped_fields = self.map_type_ann_fields(fields);
                self.alloc_type(Type::Hash(mapped_fields))
            },
            TypeAnn::Function { params, ret } => {
                let ghost orig = *self;
                let mapped_params = self.map_type_anns(params);
                let ghost mid = *self;
                let mapped_ret = self.map_type_ann(ret);
                proof { self.lemma_extends_trans(&mid, &orig); }
                self.alloc_type(Type::Function { params: mapped_params, ret: mapped_ret })
            },
            TypeAnn::Tuple(elements) => {
                let mapped = self.map_type_anns(elements);
                self.alloc_type(Type::Tuple(mapped))
            },
        }
    }

    /// The record fields that annotated fields name; a repeated name keeps
    /// its last type.
    fn map_type_ann_fields(&mut self, fields: &Vec<(String, TypeAnn)>) -> (mapped: Vec<(String, TypeIdx)>)
        requires
            old(self).wf(),
        ensures
            final(self).wf(),
            final(self).extends(old(self)),
            final(self).grows(old(self)),
            distinct_names(mapped@),
            forall|k: int| 0 <= k < mapped@.len() ==> final(self).valid(#[trigger] mapped@[k].1),
            forall|name: Seq<char>| (#[trigger] assoc(mapped@, name) is Some) == (assoc(fields@, name) is Some),
        decreases fields,
    {
        let ghost orig = *self;
        let mut mapped_fields: Vec<(String, TypeIdx)> = Vec::new();
        let mut i: usize = 0;
        while i < fields.len()
            invariant
                self.wf(),
                self.extends(&orig),
                self.grows(&orig),
                i <= fields@.len(),
                forall|name: Seq<char>| (#[trigger] assoc(mapped_fields@, name) is Some)
                    == (assoc(fields@.take(i as int), name) is Some),
                distinct_names(mapped_fields@),
                forall|k: int| 0 <= k < mapped_fields@.len() ==> self.valid(#[trigger] mapped_fields@[k].1),
            decreases fields@.len() - i,
        {
            let ghost before = *self;
            let ghost before_fields = mapped_fields@;
            let t = self.map_type_ann(&fields[i].1);
            proof { self.lemma_extends_trans(&before, &orig); }
            let pos = assoc_insert(&mut mapped_fields, fields[i].0.clone(), t);
            proof {
                let e = fields@[i as int];
                assert(fields@.take(i + 1) =~= fields@.take(i as int).push(e));
                assert forall|name: Seq<char>| (#[trigger] assoc(mapped_fields@, name) is Some)
                    == (assoc(fields@.take(i + 1), name) is Some) by {
                    if name == e.0@ {
                        lemma_assoc_push_same(fields@.take(i as int), e);
                    } else {
                        lemma_assoc_push(fields@.take(i as int), e, name);
                    }
                }
                assert forall|k: int| 0 <= k < mapped_fields@.len() implies self.valid(#[trigger] mapped_fields@[k].1) by {
                    if k != pos as int && k < before_fields.len() {
                        assert(mapped_fields@[k] == before_fields[k]);
                    }
                }
            }
            i += 1;
        }
        proof { assert(fields@.take(fields@.len() as int) =~= fields@); }
        mapped_fields
    }

    /// The types that a list of annotations names.
    fn map_type_anns(&mut self, anns: &Vec<TypeAnn>) -> (ts: Vec<TypeIdx>)
        requires
            old(self).wf(),
        ensures
            final(self).wf(),
            final(self).extends(old(self)),
            final(self).grows(old(self)),
            ts@.len() == anns@.len(),
            forall|k: int| 0 <= k < ts@.len() ==> final(self).valid(#[trigger] ts@[k]),
        decreases anns,
    {
        let ghost orig = *self;
        let mut out: Vec<TypeIdx> = Vec::new();
        let mut i: usize = 0;
        while i < anns.len()
            invariant
                self.wf(),
                self.extends(&orig),
                self.grows(&orig),
                i <= anns@.len(),
                out@.len() == i,
                forall|k: int| 0 <= k < out@.len() ==> self.valid(#[trigger] out@[k]),
            decreases anns@.len() - i,
        {
            let ghost before = *self;
            let t = self.map_type_ann(&anns[i]);
            proof { self.lemma_extends_trans(&before, &orig); }
            out.push(t);
            i += 1;
        }
        out
    }
}


impl TypeChecker {
    /// The common frame of every checking step: the state stays well formed,
    /// the stores only grow.
    pub open spec fn checked(&self, old: &Self) -> bool {
        &&& self.wf()
        &&& self.grows(old)
    }

    /// The type that `subject` reaches, checked against a pattern; the
    /// pattern's names are defined in `env`.
    fn check_pattern(&mut self, pattern: &Pattern, subject_ty: TypeIdx, env: EnvIdx) -> (r: Result<(), Diagnostic>)
        requires
            old(self).wf(),
            old(self).valid(subject_ty),
            old(self).valid_env(env),
        ensures
            r is Ok ==> final(self).return_type() == old(self).return_type(),
            final(self).checked(old(self)),
            *pattern is Wildcard ==> r is Ok && *final(self) == *old(self),
            pattern matches Pattern::Identifier(name) ==> r is Ok
                && final(self).lookup(env, name@) == Some((old(self).root(subject_ty), false))
                && (forall|n: Seq<char>| n != name@ ==> #[trigger] final(self).lookup(env, n) == old(self).lookup(env, n))
                && (forall|u: TypeIdx| old(self).valid(u) ==> #[trigger] final(self).root(u) == old(self).root(u)),
            ({
                let st = old(self).type_store()[old(self).root(subject_ty).0 as int];
                &&& *pattern is Number && (st is Number || st is Any) ==> r is Ok
                &&& *pattern is StringLiteral && (st is String || st is Any) ==> r is Ok
                &&& *pattern is Atom && (st is Atom || st is Any) ==> r is Ok
                &&& *pattern is Number && mismatched(st, Type::Number) ==> r is Err
                &&& *pattern is StringLiteral && mismatched(st, Type::String) ==> r is Err
                &&& *pattern is Atom && mismatched(st, Type::Atom) ==> r is Err
                &&& pattern matches Pattern::Tuple(es) ==> (st matches Type::Tuple(ts) ==> (es@.len() != ts@.len()
                    ==> (r matches Err(d) && d.message@ == "Tuple pattern size mismatch: expected size "@
                        + spec_decimal(ts@.len()) + ", got "@ + spec_decimal(es@.len()))))
                &&& *pattern is Tuple && !(st is Tuple || st is Var || st is Any) ==> r is Err
            }),
            binding_pattern(*pattern) ==> forall|n: Seq<char>| old(self).lookup(env, n) is Some
                ==> #[trigger] final(self).lookup(env, n) is Some,
            pattern matches Pattern::Tuple(es) ==> (old(self).type_store()[old(self).root(subject_ty).0 as int]
                matches Type::Tuple(ts) ==> (es@.len() == ts@.len()
                && (forall|k: int| 0 <= k < es@.len() ==> binding_pattern(#[trigger] es@[k]))
                ==> r is Ok && bound_names(es@, final(self), env) && bound_as(es@, ts@, old(self), final(self), env))),
        decreases pattern, 0nat,
    {
        let subject_ty = self.find(subject_ty);
        proof { assert(type_wf(self.types@[subject_ty.0 as int], self.types@.len())); }
        let s_ty = copy_type(&self.types[subject_ty.0]);
        match pattern {
            Pattern::Wildcard => Ok(()),
            Pattern::Identifier(name) => {
                self.define_var(env, name.clone(), subject_ty, false);
                Ok(())
            },
            Pattern::Number(_) => {
                let num_ty = self.alloc_plain(Type::Number);
                self.unify_here(subject_ty, num_ty)
            },
            Pattern::StringLiteral(_) => {
                let str_ty = self.alloc_plain(Type::String);
                self.unify_here(subject_ty, str_ty)
            },
            Pattern::Atom(_) => {
                let atom_ty = self.alloc_plain(Type::Atom);
                self.unify_here(subject_ty, atom_ty)
            },
            Pattern::Tuple(elements) => match s_ty {
                Type::Tuple(expected_elements) => {
                    if elements.len() != expected_elements.len() {
                        return self.fail(join3(
                            join2("Tuple pattern size mismatch: expected size ",
                                decimal_string(expected_elements.len()).as_str()).as_str(),
                            ", got ",
                            decimal_string(elements.len()).as_str(),
                        ));
                    }
                    proof {
                        assert forall|k: int| 0 <= k < expected_elements@.len() implies self.valid(#[trigger] expected_elements@[k]) by {
                            assert(child_indices(self.types@[subject_ty.0 as int])[k] == expected_elements@[k]);
                        }
                    }
                    self.check_patterns(elements, &expected_elements, env)
                },
                Type::Var(_) => {
                    let ghost orig = *self;
                    let mut inner_vars: Vec<TypeIdx> = Vec::new();
                    let mut i: usize = 0;
                    while i < elements.len()
                        invariant
                            self.return_type() == old(self).return_type(),
                            self.checked(&orig),
                            self.valid_env(env),
                            self.valid(subject_ty),
                            i <= elements@.len(),
                            inner_vars@.len() == i,
                            forall|k: int| 0 <= k < inner_vars@.len() ==> self.valid(#[trigger] inner_vars@[k]),
                        decreases elements@.len() - i,
                    {
                        let v = self.alloc_var();
                        inner_vars.push(v);
                        i += 1;
                    }
                    let copy = copy_indices(&inner_vars);
                    let tuple_ty = self.alloc_type(Type::Tuple(copy));
                    let ghost mid = *self;
                    let res = self.unify_here(subject_ty, tuple_ty);
                    if res.is_err() {
                        return res;
                    }
                    self.check_patterns(elements, &inner_vars, env)
                },
                Type::Any => {
                    let any_ty = self.alloc_plain(Type::Any);
                    self.check_patterns_against(elements, any_ty, env)
                },
                _ => {
                    let ty_str = self.type_to_string(subject_ty);
                    self.fail(join3("Cannot match tuple pattern against type '", ty_str.as_str(), "'"))
                },
            },
        }
    }

    /// Checks each pattern against the one type `ty`.
    fn check_patterns_against(&mut self, patterns: &Vec<Pattern>, ty: TypeIdx, env: EnvIdx) -> (r: Result<(), Diagnostic>)
        requires
            old(self).wf(),
            old(self).valid_env(env),
            old(self).valid(ty),
        ensures
            r is Ok ==> final(self).return_type() == old(self).return_type(),
            final(self).checked(old(self)),
            patterns@.len() == 0 ==> r is Ok && *final(self) == *old(self),
            (forall|k: int| 0 <= k < patterns@.len() ==> #[trigger] patterns@[k] is Wildcard) ==> r is Ok && *final(self) == *old(self),
        decreases patterns, 1nat,
    {
        let ghost orig = *self;
        let mut i: usize = 0;
        while i < patterns.len()
            invariant
                self.return_type() == old(self).return_type(),
                self.checked(&orig),
                *old(self) == orig,
                self.valid_env(env),
                orig.valid(ty),
                i <= patterns@.len(),
                (forall|k: int| 0 <= k < patterns@.len() ==> #[trigger] patterns@[k] is Wildcard) ==> *self == orig,
                i == 0 ==> *self == orig,
            decreases patterns@.len() - i,
        {
            let res = self.check_pattern(&patterns[i], ty, env);
            if res.is_err() {
                return res;
            }
            i += 1;
        }
        Ok(())
    }

    /// Checks each pattern against the type at the same position.
    fn check_patterns(&mut self, patterns: &Vec<Pattern>, types: &Vec<TypeIdx>, env: EnvIdx) -> (r: Result<(), Diagnostic>)
        requires
            old(self).wf(),
            old(self).valid_env(env),
            patterns@.len() == types@.len(),
            forall|k: int| 0 <= k < types@.len() ==> old(self).valid(#[trigger] types@[k]),
        ensures
            r is Ok ==> final(self).return_type() == old(self).return_type(),
            final(self).checked(old(self)),
            patterns@.len() == 0 ==> r is Ok && *final(self) == *old(self),
            (forall|k: int| 0 <= k < patterns@.len() ==> #[trigger] patterns@[k] is Wildcard) ==> r is Ok && *final(self) == *old(self),
            (forall|k: int| 0 <= k < patterns@.len() ==> binding_pattern(#[trigger] patterns@[k]))
                ==> r is Ok && bound_names(patterns@, final(self), env)
                    && bound_as(patterns@, types@, old(self), final(self), env),
        decreases patterns, 1nat,
    {
        let ghost orig = *self;
        let mut i: usize = 0;
        while i < patterns.len()
            invariant
                self.return_type() == old(self).return_type(),
                self.checked(&orig),
                *old(self) == orig,
                self.valid_env(env),
                patterns@.len() == types@.len(),
                forall|k: int| 0 <= k < types@.len() ==> orig.valid(#[trigger] types@[k]),
                i <= patterns@.len(),
                (forall|k: int| 0 <= k < patterns@.len() ==> #[trigger] patterns@[k] is Wildcard) ==> *self == orig,
                i == 0 ==> *self == orig,
                (forall|k: int| 0 <= k < patterns@.len() ==> binding_pattern(#[trigger] patterns@[k]))
                    ==> bound_names(patterns@.take(i as int), self, env)
                        && bound_as(patterns@.take(i as int), types@, &orig, self, env)
                        && (forall|u: TypeIdx| orig.valid(u) ==> #[trigger] self.root(u) == orig.root(u)),
                orig.wf(),
            decreases patterns@.len() - i,
        {
            let ghost before = *self;
            let res = self.check_pattern(&patterns[i], types[i], env);
            if res.is_err() {
                return res;
            }
            proof {
                if forall|k: int| 0 <= k < patterns@.len() ==> binding_pattern(#[trigger] patterns@[k]) {
                    assert(binding_pattern(patterns@[i as int]));
                    let t = patterns@.take(i + 1);
                    assert forall|k: int| 0 <= k < t.len() implies (#[trigger] t[k] matches Pattern::Identifier(n)
                        ==> self.lookup(env, n@) is Some) by {
                        if k < i {
                            assert(t[k] == patterns@.take(i as int)[k]);
                            if let Pattern::Identifier(n) = t[k] {
                                assert(before.lookup(env, n@) is Some);
                            }
                        }
                    }
                    assert forall|k: int| 0 <= k < t.len() implies (#[trigger] t[k] matches Pattern::Identifier(n) ==> (
                        (forall|j: int| k < j < t.len() ==> !(#[trigger] t[j] matches Pattern::Identifier(m) && m@ == n@))
                            ==> self.lookup(env, n@) == Some((orig.root(types@[k]), false)))) by {
                        if let Pattern::Identifier(n) = t[k] {
                            if forall|j: int| k < j < t.len() ==> !(#[trigger] t[j] matches Pattern::Identifier(m) && m@ == n@) {
                                if k < i {
                                    assert(t[k] == patterns@.take(i as int)[k]);
                                    assert forall|j: int| k < j < i implies
                                        !(#[trigger] patterns@.take(i as int)[j] matches Pattern::Identifier(m) && m@ == n@) by {
                                        assert(t[j] == patterns@.take(i as int)[j]);
                                    }
                                    assert(before.lookup(env, n@) == Some((orig.root(types@[k]), false)));
                                    assert(!(t[i as int] matches Pattern::Identifier(m) && m@ == n@));
                                } else {
                                    assert(orig.valid(types@[k]));
                                }
                            }
                        }
                    }
                }
            }
            i += 1;
        }
        proof { assert(patterns@.take(patterns@.len() as int) =~= patterns@); }
        Ok(())
    }
}


/// The names, each in double quotes, with `, ` between them.
pub open spec fn quoted_names(ns: Seq<Seq<char>>) -> Seq<char>
    decreases ns.len(),
{
    if ns.len() == 0 {
        seq![]
    } else {
        quoted_names(ns.drop_last()) + (if ns.len() > 1 { ", "@ } else { seq![] }) + "\""@ + ns.last() + "\""@
    }
}

/// The texts of a list of strings.
pub open spec fn texts(v: Seq<String>) -> Seq<Seq<char>> {
    v.map_values(|s: String| s@)
}

/// The list `{:?}` writes for names made of letters, digits and `_`:
/// `["a", "b"]`.
fn debug_name_list(names: &Vec<String>) -> (r: String)
    ensures
        r@ == "["@ + quoted_names(texts(names@)) + "]"@,
{
    let mut out = owned("[");
    let mut i: usize = 0;
    while i < names.len()
        invariant
            i <= names@.len(),
            out@ == "["@ + quoted_names(texts(names@.take(i as int))),
        decreases names@.len() - i,
    {
        proof {
            assert(texts(names@.take(i as int + 1)).drop_last() =~= texts(names@.take(i as int)));
        }
        if i > 0 {
            out = join2(out.as_str(), ", ");
        }
        out = join3(join2(out.as_str(), "\"").as_str(), names[i].as_str(), "\"");
        i += 1;
    }
    assert(names@.take(names@.len() as int) =~= names@);
    join2(out.as_str(), "]")
}

impl TypeChecker {
    /// Adds (or replaces) field `name` of the record at `t`.
    fn record_insert(&mut self, t: TypeIdx, name: String, v: TypeIdx)
        requires
            old(self).wf(),
            old(self).valid(t),
            old(self).valid(v),
            old(self).types@[t.0 as int] is Hash,
        ensures
            final(self).wf(),
            final(self).extends(old(self)),
            final(self).grows(old(self)),
            final(self).keeps_links(old(self)),
            forall|i: int| 0 <= i < old(self).types@.len() && i != t.0 ==> #[trigger] final(self).types@[i] == old(self).types@[i],
            match (old(self).types@[t.0 as int], final(self).types@[t.0 as int]) {
                (Type::Hash(g), Type::Hash(f)) => assoc(f@, name@) == Some(v)
                    && forall|n: Seq<char>| n != name@ ==> #[trigger] assoc(f@, n) == assoc(g@, n),
                _ => false,
            },
    {
        proof { assert(type_wf(self.types@[t.0 as int], self.types@.len())); }
        let current = copy_type(&self.types[t.0]);
        if let Type::Hash(mut fields) = current {
            let ghost before = fields@;
            proof {
                assert forall|k: int| 0 <= k < fields@.len() implies self.valid(#[trigger] fields@[k].1) by {
                    assert(child_indices(self.types@[t.0 as int])[k] == fields@[k].1);
                }
            }
            let pos = assoc_insert(&mut fields, name, v);
            proof {
                assert forall|k: int| 0 <= k < fields@.len() implies self.valid(#[trigger] fields@[k].1) by {
                    if k != pos as int && k < before.len() {
                        assert(fields@[k] == before[k]);
                    }
                }
            }
            self.set_type(t, Type::Hash(fields));
        }
    }

    /// Checks `expr` where a type `expected` is wanted: array, record and
    /// tuple literals are checked element by element against it.
    pub fn check_expected(&mut self, expr: &Expression, env: EnvIdx, expected: TypeIdx) -> (r: Result<TypeIdx, Diagnostic>)
        requires
            old(self).wf(),
            old(self).valid_env(env),
            old(self).valid(expected),
        ensures
            r is Ok ==> final(self).return_type() == old(self).return_type(),
            final(self).checked(old(self)),
            r matches Ok(t) ==> final(self).valid(t),
            r matches Ok(t) ==> fits_form(final(self).type_store()[t.0 as int], spec_unwrap_loc(*expr)),
            ({
                let ex = old(self).type_store()[old(self).root(expected).0 as int];
                &&& spec_unwrap_loc(*expr) is Array && ex is Array ==> (r matches Ok(t) ==> t == old(self).root(expected))
                &&& spec_unwrap_loc(*expr) matches Expression::Hash(pairs) ==> (ex matches Type::Hash(fields) ==> (
                    missing_fields(fields@, pairs@).len() > 0 ==> (r matches Err(d) && d.message@ ==
                        "Record type mismatch: missing required fields "@ + "["@
                            + quoted_names(missing_fields(fields@, pairs@)) + "]"@
                        && final(self).type_store() == old(self).type_store()
                        && final(self).env_store() == old(self).env_store())))
                &&& spec_unwrap_loc(*expr) matches Expression::Tuple(es) ==> (ex matches Type::Tuple(ts) ==> (
                    es@.len() != ts@.len() ==> (r matches Err(d) && d.message@ ==
                        "Tuple size mismatch: expected size "@ + spec_decimal(ts@.len()) + ", got "@
                            + spec_decimal(es@.len()))))
            }),
            spec_unwrap_loc(*expr) matches Expression::Array(es) ==> (
                old(self).type_store()[old(self).root(expected).0 as int] matches Type::Array(inner) ==> (
                    (es@.len() == 0 || (number_literals(es@) && ({
                        let et = old(self).type_store()[old(self).root(inner).0 as int];
                        et is Number || et is Any
                    }))) ==> r == Ok::<TypeIdx, Diagnostic>(old(self).root(expected)))),
            spec_unwrap_loc(*expr) matches Expression::Array(es) ==> (
                old(self).type_store()[old(self).root(expected).0 as int] matches Type::Array(inner) ==> ({
                    let et = old(self).type_store()[old(self).root(inner).0 as int];
                    es@.len() > 0 && number_literals(es@) && is_base(et) && !(et is Number)
                        ==> (r matches Err(d) && d.message@ == mismatch_text(Type::Number, et))
                })),
            spec_unwrap_loc(*expr) matches Expression::Array(es) ==> (
                old(self).type_store()[old(self).root(expected).0 as int] matches Type::Array(inner) ==> ({
                    let et = old(self).type_store()[old(self).root(inner).0 as int];
                    literal_elements(es@) && is_base(et) ==> {
                        &&& literals_fit(es@, et, es@.len() as int) ==> r == Ok::<TypeIdx, Diagnostic>(old(self).root(expected))
                        &&& forall|k: int| 0 <= k < es@.len() && literals_fit(es@, et, k)
                            && #[trigger] literal_type(es@[k]) != Some(et)
                            ==> (r matches Err(d) && d.message@ == mismatch_text(literal_type(es@[k])->0, et))
                    }
                })),
            literal_type(*expr) matches Some(lt) ==> ({
                let ex = old(self).type_store()[old(self).root(expected).0 as int];
                &&& final(self).env_store() == old(self).env_store()
                &&& (ex == lt || ex is Any) ==> r is Ok
                &&& is_base(ex) && ex != lt ==> (r matches Err(d) && d.message@ == mismatch_text(lt, ex))
            }),
        decreases expr, 2nat,
    {
        if let Expression::Loc { line, col, expr: inner } = expr {
            let ghost before = *self;
            self.current_line = *line;
            self.current_col = *col;
            proof {
                assert forall|t: TypeIdx| before.valid(t) implies self.root(t) == before.root(t) by {
                    self.lemma_root_extend(&before, t);
                }
                assert(self.type_store() == before.type_store());
                before.lemma_root(expected);
                let re = before.root(expected);
                assert(type_wf(before.types@[re.0 as int], before.types@.len()));
                if let Type::Array(inn) = before.types@[re.0 as int] {
                    assert(child_indices(before.types@[re.0 as int])[0] == inn);
                    assert(self.root(inn) == before.root(inn));
                }
            }
            return self.check_expected(inner, env, expected);
        }
        let ghost orig = *self;
        let expected = self.find(expected);
        proof { assert(type_wf(self.types@[expected.0 as int], self.types@.len())); }
        let exp_ty = copy_type(&self.types[expected.0]);
        match (expr, exp_ty) {
            (Expression::Array(elements), Type::Array(expected_elem_ty)) => {
                proof { assert(child_indices(self.types@[expected.0 as int])[0] == expected_elem_ty); }
                let res = self.check_elements_unify(elements, env, expected_elem_ty);
                match res {
                    Ok(()) => Ok(expected),
                    Err(e) => Err(e),
                }
            },
            (Expression::Hash(pairs), Type::Hash(expected_fields)) => {
                proof {
                    assert forall|k: int| 0 <= k < expected_fields@.len() implies self.valid(#[trigger] expected_fields@[k].1) by {
                        assert(child_indices(self.types@[expected.0 as int])[k] == expected_fields@[k].1);
                    }
                }
                let missing = missing_names(&expected_fields, pairs);
                if missing.len() > 0 {
                    let listed = debug_name_list(&missing);
                    return self.fail(join2("Record type mismatch: missing required fields ", listed.as_str()));
                }
                let actual_fields = match self.check_pairs_expected(pairs, env, &expected_fields) {
                    Ok(f) => f,
                    Err(e) => { return Err(e); },
                };
                let ghost mid = *self;
                let actual_hash_ty = self.alloc_type(Type::Hash(actual_fields));
                match self.unify_here(actual_hash_ty, expected) {
                    Ok(()) => Ok(actual_hash_ty),
                    Err(e) => Err(e),
                }
            },
            (Expression::Tuple(elements), Type::Tuple(expected_elements)) => {
                if elements.len() != expected_elements.len() {
                    return self.fail(join3(
                        join2("Tuple size mismatch: expected size ", decimal_string(expected_elements.len()).as_str()).as_str(),
                        ", got ",
                        decimal_string(elements.len()).as_str(),
                    ));
                }
                proof {
                    assert forall|k: int| 0 <= k < expected_elements@.len() implies self.valid(#[trigger] expected_elements@[k]) by {
                        assert(child_indices(self.types@[expected.0 as int])[k] == expected_elements@[k]);
                    }
                }
                let actual_elements = match self.check_all_expected(elements, env, &expected_elements) {
                    Ok(v) => v,
                    Err(e) => { return Err(e); },
                };
                Ok(self.alloc_type(Type::Tuple(actual_elements)))
            },
            _ => {
                let val_ty = match self.check(expr, env) {
                    Ok(t) => t,
                    Err(e) => { return Err(e); },
                };
                let ghost checked_value = *self;
                proof {
                    if literal_type(*expr) is Some {
                        orig.lemma_root(expected);
                        self.lemma_root(expected);
                        self.lemma_text_of_root(val_ty);
                        if is_base(self.types@[self.root(expected).0 as int]) {
                            self.lemma_text_of_root(expected);
                        }
                    }
                }
                match self.unify_here(val_ty, expected) {
                    Ok(()) => {
                        proof { self.lemma_fits_kept(&checked_value, val_ty, *expr); }
                        Ok(val_ty)
                    },
                    Err(e) => Err(e),
                }
            },
        }
    }

    /// Checks each element and unifies it with `elem_ty`, stopping at the
    /// first error.
    fn check_elements_unify(&mut self, elements: &Vec<Expression>, env: EnvIdx, elem_ty: TypeIdx) -> (r: Result<(), Diagnostic>)
        requires
            old(self).wf(),
            old(self).valid_env(env),
            old(self).valid(elem_ty),
        ensures
            r is Ok ==> final(self).return_type() == old(self).return_type(),
            final(self).checked(old(self)),
            elements@.len() == 0 ==> r is Ok && *final(self) == *old(self),
            number_literals(elements@) && ({
                let et = old(self).type_store()[old(self).root(elem_ty).0 as int];
                et is Number || et is Any
            }) ==> r is Ok,
            elements@.len() > 0 && number_literals(elements@) && ({
                let et = old(self).type_store()[old(self).root(elem_ty).0 as int];
                is_base(et) && !(et is Number)
            }) ==> (r matches Err(d)
                && d.message@ == mismatch_text(Type::Number, old(self).type_store()[old(self).root(elem_ty).0 as int])),
            ({
                let et = old(self).type_store()[old(self).root(elem_ty).0 as int];
                literal_elements(elements@) && is_base(et) ==> {
                    &&& literals_fit(elements@, et, elements@.len() as int) ==> r is Ok
                    &&& forall|k: int| 0 <= k < elements@.len() && literals_fit(elements@, et, k)
                        && #[trigger] literal_type(elements@[k]) != Some(et)
                        ==> (r matches Err(d) && d.message@ == mismatch_text(literal_type(elements@[k])->0, et))
                }
            }),
        decreases elements, 3nat,
    {
        let ghost orig = *self;
        let ghost lits = literal_elements(elements@) && is_base(orig.type_store()[orig.root(elem_ty).0 as int]);
        let ghost et = orig.type_store()[orig.root(elem_ty).0 as int];
        let ghost hard = elements@.len() > 0 && number_literals(elements@) && ({
            let et = orig.type_store()[orig.root(elem_ty).0 as int];
            is_base(et) && !(et is Number)
        });
        let ghost easy = number_literals(elements@) && ({
            let et = orig.type_store()[orig.root(elem_ty).0 as int];
            et is Number || et is Any
        });
        let mut i: usize = 0;
        while i < elements.len()
            invariant
                self.return_type() == old(self).return_type(),
                self.checked(&orig),
                *old(self) == orig,
                self.valid_env(env),
                self.valid(elem_ty),
                i <= elements@.len(),
                i == 0 ==> *self == orig,
                orig.wf(),
                orig.valid(elem_ty),
                easy == (number_literals(elements@) && ({
                    let et = orig.type_store()[orig.root(elem_ty).0 as int];
                    et is Number || et is Any
                })),
                easy ==> self.root(elem_ty) == orig.root(elem_ty)
                    && self.type_store()[orig.root(elem_ty).0 as int] == orig.type_store()[orig.root(elem_ty).0 as int],
                hard == (elements@.len() > 0 && number_literals(elements@) && ({
                    let et = orig.type_store()[orig.root(elem_ty).0 as int];
                    is_base(et) && !(et is Number)
                })),
                hard ==> i == 0,
                lits == (literal_elements(elements@) && is_base(orig.type_store()[orig.root(elem_ty).0 as int])),
                et == orig.type_store()[orig.root(elem_ty).0 as int],
                lits ==> literals_fit(elements@, et, i as int) && self.root(elem_ty) == orig.root(elem_ty)
                    && self.type_store()[orig.root(elem_ty).0 as int] == et,
            decreases elements@.len() - i,
        {
            let ghost before = *self;
            let el_ty = match self.check(&elements[i], env) {
                Ok(t) => t,
                Err(e) => { return Err(e); },
            };
            proof {
                if easy {
                    assert(spec_unwrap_loc(elements@[i as int]) is Number);
                    self.lemma_root(el_ty);
                    orig.lemma_root(elem_ty);
                    assert(!self.is_link(el_ty.0 as int));
                }
                if hard {
                    assert(spec_unwrap_loc(elements@[i as int]) is Number);
                    assert(literal_type(elements@[i as int]) == Some(Type::Number));
                    orig.lemma_root(elem_ty);
                    self.lemma_root(elem_ty);
                    self.lemma_root(el_ty);
                    self.lemma_text_of_root(el_ty);
                    self.lemma_text_of_root(elem_ty);
                }
                if lits {
                    assert(literal_type(elements@[i as int]) is Some);
                    orig.lemma_root(elem_ty);
                    self.lemma_root(elem_ty);
                    self.lemma_root(el_ty);
                    self.lemma_text_of_root(el_ty);
                    self.lemma_text_of_root(elem_ty);
                }
            }
            let ghost before_unify = *self;
            let res = self.unify_here(el_ty, elem_ty);
            if res.is_err() {
                proof {
                    if lits {
                        assert(literal_type(elements@[i as int]) != Some(et));
                        assert forall|k: int| 0 <= k < elements@.len() && literals_fit(elements@, et, k)
                            && #[trigger] literal_type(elements@[k]) != Some(et) implies k == i by {
                            if k < i {
                            } else if k > i {
                                assert(literal_type(elements@[i as int]) == Some(et));
                            }
                        }
                    }
                }
                return res;
            }
            proof {
                if lits {
                    assert(literal_type(elements@[i as int]) == Some(et));
                    assert(*self == before_unify);
                }
            }
            i += 1;
        }
        Ok(())
    }

    /// Checks each expression against the type at the same position.
    fn check_all_expected(&mut self, exprs: &Vec<Expression>, env: EnvIdx, expected: &Vec<TypeIdx>) -> (r: Result<Vec<TypeIdx>, Diagnostic>)
        requires
            old(self).wf(),
            old(self).valid_env(env),
            exprs@.len() == expected@.len(),
            forall|k: int| 0 <= k < expected@.len() ==> old(self).valid(#[trigger] expected@[k]),
        ensures
            r is Ok ==> final(self).return_type() == old(self).return_type(),
            final(self).checked(old(self)),
            r matches Ok(v) ==> v@.len() == exprs@.len()
                && forall|k: int| 0 <= k < v@.len() ==> final(self).valid(#[trigger] v@[k]),
            exprs@.len() == 0 ==> (r matches Ok(v) && v@.len() == 0 && *final(self) == *old(self)),
            r matches Ok(v) ==> forall|k: int| 0 <= k < v@.len()
                ==> fits_form(final(self).type_store()[#[trigger] v@[k].0 as int], exprs@[k]),
        decreases exprs, 3nat,
    {
        let ghost orig = *self;
        let mut out: Vec<TypeIdx> = Vec::new();
        let mut i: usize = 0;
        while i < exprs.len()
            invariant
                self.return_type() == old(self).return_type(),
                self.checked(&orig),
                *old(self) == orig,
                self.valid_env(env),
                exprs@.len() == expected@.len(),
                forall|k: int| 0 <= k < expected@.len() ==> orig.valid(#[trigger] expected@[k]),
                i <= exprs@.len(),
                out@.len() == i,
                forall|k: int| 0 <= k < out@.len() ==> self.valid(#[trigger] out@[k]),
                i == 0 ==> *self == orig,
                forall|k: int| 0 <= k < out@.len() ==> fits_form(self.types@[#[trigger] out@[k].0 as int], exprs@[k]),
            decreases exprs@.len() - i,
        {
            let ghost before = *self;
            let ghost out0 = out@;
            let t = match self.check_expected(&exprs[i], env, expected[i]) {
                Ok(t) => t,
                Err(e) => { return Err(e); },
            };
            out.push(t);
            proof {
                lemma_fits_unwrap(self.types@[t.0 as int], exprs@[i as int]);
                assert forall|k: int| 0 <= k < out@.len() implies fits_form(self.types@[#[trigger] out@[k].0 as int], exprs@[k]) by {
                    if k < i {
                        assert(out@[k] == out0[k]);
                        assert(before.valid(out0[k]));
                        assert(shape(self.types@[out0[k].0 as int]) == shape(before.types@[out0[k].0 as int]));
                        lemma_fits_shape(before.types@[out0[k].0 as int], self.types@[out0[k].0 as int], exprs@[k]);
                    }
                }
            }
            i += 1;
        }
        Ok(out)
    }

    /// Checks the values of a record literal; a field that `expected` lists
    /// is checked against its type there.
    fn check_pairs_expected(&mut self, pairs: &Vec<(String, Expression)>, env: EnvIdx, expected: &Vec<(String, TypeIdx)>)
        -> (r: Result<Vec<(String, TypeIdx)>, Diagnostic>)
        requires
            old(self).wf(),
            old(self).valid_env(env),
            forall|k: int| 0 <= k < expected@.len() ==> old(self).valid(#[trigger] expected@[k].1),
        ensures
            r is Ok ==> final(self).return_type() == old(self).return_type(),
            final(self).checked(old(self)),
            r matches Ok(v) ==> distinct_names(v@)
                && forall|k: int| 0 <= k < v@.len() ==> final(self).valid(#[trigger] v@[k].1),
            pairs@.len() == 0 ==> (r matches Ok(v) && v@.len() == 0 && *final(self) == *old(self)),
            r matches Ok(v) ==> forall|name: Seq<char>| (#[trigger] assoc(v@, name) is Some) == (assoc(pairs@, name) is Some),
        decreases pairs, 3nat,
    {
        let ghost orig = *self;
        let mut out: Vec<(String, TypeIdx)> = Vec::new();
        let mut i: usize = 0;
        while i < pairs.len()
            invariant
                self.return_type() == old(self).return_type(),
                self.checked(&orig),
                *old(self) == orig,
                self.valid_env(env),
                forall|k: int| 0 <= k < expected@.len() ==> orig.valid(#[trigger] expected@[k].1),
                i <= pairs@.len(),
                distinct_names(out@),
                i == 0 ==> *self == orig && out@.len() == 0,
                forall|name: Seq<char>| (#[trigger] assoc(out@, name) is Some) == (assoc(pairs@.take(i as int), name) is Some),
                forall|k: int| 0 <= k < out@.len() ==> self.valid(#[trigger] out@[k].1),
            decreases pairs@.len() - i,
        {
            let res = match assoc_position(expected, pairs[i].0.as_str()) {
                Some(j) => self.check_expected(&pairs[i].1, env, expected[j].1),
                None => self.check(&pairs[i].1, env),
            };
            let t = match res {
                Ok(t) => t,
                Err(e) => { return Err(e); },
            };
            let ghost before = out@;
            let pos = assoc_insert(&mut out, pairs[i].0.clone(), t);
            proof {
                let e = pairs@[i as int];
                assert(pairs@.take(i + 1) =~= pairs@.take(i as int).push(e));
                assert forall|name: Seq<char>| (#[trigger] assoc(out@, name) is Some)
                    == (assoc(pairs@.take(i + 1), name) is Some) by {
                    if name == e.0@ {
                        lemma_assoc_push_same(pairs@.take(i as int), e);
                    } else {
                        lemma_assoc_push(pairs@.take(i as int), e, name);
                    }
                }
                assert forall|k: int| 0 <= k < out@.len() implies self.valid(#[trigger] out@[k].1) by {
                    if k != pos as int && k < before.len() {
                        assert(out@[k] == before[k]);
                    }
                }
            }
            i += 1;
        }
        proof { assert(pairs@.take(pairs@.len() as int) =~= pairs@); }
        Ok(out)
    }

    /// Checks each expression in order, stopping at the first error.
    fn check_all(&mut self, exprs: &Vec<Expression>, env: EnvIdx) -> (r: Result<Vec<TypeIdx>, Diagnostic>)
        requires
            old(self).wf(),
            old(self).valid_env(env),
        ensures
            r is Ok ==> final(self).return_type() == old(self).return_type(),
            final(self).checked(old(self)),
            r matches Ok(v) ==> v@.len() == exprs@.len()
                && forall|k: int| 0 <= k < v@.len() ==> final(self).valid(#[trigger] v@[k]),
            exprs@.len() == 0 ==> (r matches Ok(v) && v@.len() == 0 && *final(self) == *old(self)),
            number_literals(exprs@) ==> r is Ok,
            r matches Ok(v) ==> forall|k: int| 0 <= k < v@.len()
                ==> fits_form(final(self).type_store()[#[trigger] v@[k].0 as int], exprs@[k]),
            number_literals(exprs@) ==> final(self).subst() == old(self).subst()
                && final(self).env_store() == old(self).env_store()
                && (forall|t: TypeIdx| old(self).valid(t) ==> #[trigger] final(self).root(t) == old(self).root(t)),
        decreases exprs, 3nat,
    {
        let ghost orig = *self;
        let mut out: Vec<TypeIdx> = Vec::new();
        let mut i: usize = 0;
        while i < exprs.len()
            invariant
                self.return_type() == old(self).return_type(),
                self.checked(&orig),
                *old(self) == orig,
                self.valid_env(env),
                i <= exprs@.len(),
                out@.len() == i,
                forall|k: int| 0 <= k < out@.len() ==> self.valid(#[trigger] out@[k]),
                i == 0 ==> *self == orig,
                orig.wf(),
                number_literals(exprs@) ==> self.subst() == orig.subst() && self.env_store() == orig.env_store()
                    && (forall|t: TypeIdx| orig.valid(t) ==> #[trigger] self.root(t) == orig.root(t)),
                forall|k: int| 0 <= k < out@.len() ==> fits_form(self.types@[#[trigger] out@[k].0 as int], exprs@[k]),
            decreases exprs@.len() - i,
        {
            let ghost before = *self;
            let ghost out0 = out@;
            let t = match self.check(&exprs[i], env) {
                Ok(t) => t,
                Err(e) => { return Err(e); },
            };
            proof {
                if number_literals(exprs@) {
                    assert(spec_unwrap_loc(exprs@[i as int]) is Number);
                    assert forall|u: TypeIdx| orig.valid(u) implies #[trigger] self.root(u) == orig.root(u) by {
                        assert(before.valid(u));
                    }
                }
            }
            out.push(t);
            proof {
                lemma_fits_unwrap(self.types@[t.0 as int], exprs@[i as int]);
                assert forall|k: int| 0 <= k < out@.len() implies fits_form(self.types@[#[trigger] out@[k].0 as int], exprs@[k]) by {
                    if k < i {
                        assert(out@[k] == out0[k]);
                        assert(before.valid(out0[k]));
                        assert(shape(self.types@[out0[k].0 as int]) == shape(before.types@[out0[k].0 as int]));
                        lemma_fits_shape(before.types@[out0[k].0 as int], self.types@[out0[k].0 as int], exprs@[k]);
                    }
                }
            }
            i += 1;
        }
        Ok(out)
    }

    /// Checks each expression in order and gives the last one's type, or
    /// `initial` for none.
    fn check_last(&mut self, exprs: &Vec<Expression>, env: EnvIdx, initial: TypeIdx) -> (r: Result<TypeIdx, Diagnostic>)
        requires
            old(self).wf(),
            old(self).valid_env(env),
            old(self).valid(initial),
        ensures
            r is Ok ==> final(self).return_type() == old(self).return_type(),
            final(self).checked(old(self)),
            r matches Ok(t) ==> final(self).valid(t),
            exprs@.len() == 0 ==> r == Ok::<TypeIdx, Diagnostic>(initial),
            r matches Ok(t) ==> (exprs@.len() > 0 ==> fits_form(final(self).type_store()[t.0 as int],
                exprs@[exprs@.len() - 1])),
            exprs@.len() == 0 ==> *final(self) == *old(self),
        decreases exprs, 3nat,
    {
        let ghost orig = *self;
        let mut last = initial;
        let mut i: usize = 0;
        while i < exprs.len()
            invariant
                self.return_type() == old(self).return_type(),
                self.checked(&orig),
                *old(self) == orig,
                self.valid_env(env),
                self.valid(last),
                i <= exprs@.len(),
                i == 0 ==> last == initial && *self == orig,
                i > 0 ==> fits_form(self.types@[last.0 as int], exprs@[i - 1]),
            decreases exprs@.len() - i,
        {
            last = match self.check(&exprs[i], env) {
                Ok(t) => t,
                Err(e) => { return Err(e); },
            };
            proof { lemma_fits_unwrap(self.types@[last.0 as int], exprs@[i as int]); }
            i += 1;
        }
        Ok(last)
    }

    /// Checks the values of a record literal; a repeated name keeps its last
    /// type.
    fn check_pairs(&mut self, pairs: &Vec<(String, Expression)>, env: EnvIdx) -> (r: Result<Vec<(String, TypeIdx)>, Diagnostic>)
        requires
            old(self).wf(),
            old(self).valid_env(env),
        ensures
            r is Ok ==> final(self).return_type() == old(self).return_type(),
            final(self).checked(old(self)),
            r matches Ok(v) ==> distinct_names(v@)
                && forall|k: int| 0 <= k < v@.len() ==> final(self).valid(#[trigger] v@[k].1),
            pairs@.len() == 0 ==> (r matches Ok(v) && v@.len() == 0 && *final(self) == *old(self)),
            r matches Ok(v) ==> forall|name: Seq<char>| (#[trigger] assoc(v@, name) is Some) == (assoc(pairs@, name) is Some),
            number_valued(pairs@) ==> r is Ok,
        decreases pairs, 3nat,
    {
        let ghost orig = *self;
        let mut out: Vec<(String, TypeIdx)> = Vec::new();
        let mut i: usize = 0;
        while i < pairs.len()
            invariant
                self.return_type() == old(self).return_type(),
                self.checked(&orig),
                *old(self) == orig,
                self.valid_env(env),
                i <= pairs@.len(),
                distinct_names(out@),
                i == 0 ==> *self == orig && out@.len() == 0,
                forall|name: Seq<char>| (#[trigger] assoc(out@, name) is Some) == (assoc(pairs@.take(i as int), name) is Some),
                forall|k: int| 0 <= k < out@.len() ==> self.valid(#[trigger] out@[k].1),
            decreases pairs@.len() - i,
        {
            let t = match self.check(&pairs[i].1, env) {
                Ok(t) => t,
                Err(e) => { return Err(e); },
            };
            let ghost before = out@;
            let pos = assoc_insert(&mut out, pairs[i].0.clone(), t);
            proof {
                let e = pairs@[i as int];
                assert(pairs@.take(i + 1) =~= pairs@.take(i as int).push(e));
                assert forall|name: Seq<char>| (#[trigger] assoc(out@, name) is Some)
                    == (assoc(pairs@.take(i + 1), name) is Some) by {
                    if name == e.0@ {
                        lemma_assoc_push_same(pairs@.take(i as int), e);
                    } else {
                        lemma_assoc_push(pairs@.take(i as int), e, name);
                    }
                }
                assert forall|k: int| 0 <= k < out@.len() implies self.valid(#[trigger] out@[k].1) by {
                    if k != pos as int && k < before.len() {
                        assert(out@[k] == before[k]);
                    }
                }
            }
            i += 1;
        }
        proof { assert(pairs@.take(pairs@.len() as int) =~= pairs@); }
        Ok(out)
    }
}

/// Some pair is named `n`.
pub open spec fn pair_has_name(pairs: Seq<(String, Expression)>, n: Seq<char>) -> bool {
    exists|j: int| 0 <= j < pairs.len() && #[trigger] pairs[j].0@ == n
}

/// The names of `expected` that no pair has, in the order of `expected`.
pub open spec fn missing_fields(expected: Seq<(String, TypeIdx)>, pairs: Seq<(String, Expression)>) -> Seq<Seq<char>>
    decreases expected.len(),
{
    if expected.len() == 0 {
        seq![]
    } else {
        let rest = missing_fields(expected.drop_last(), pairs);
        if pair_has_name(pairs, expected.last().0@) { rest } else { rest.push(expected.last().0@) }
    }
}

/// The names of `expected` that no pair has, in the order of `expected`.
fn missing_names(expected: &Vec<(String, TypeIdx)>, pairs: &Vec<(String, Expression)>) -> (r: Vec<String>)
    ensures
        texts(r@) == missing_fields(expected@, pairs@),
{
    let mut out: Vec<String> = Vec::new();
    let mut i: usize = 0;
    while i < expected.len()
        invariant
            i <= expected@.len(),
            texts(out@) == missing_fields(expected@.take(i as int), pairs@),
        decreases expected@.len() - i,
    {
        let mut found = false;
        let mut j: usize = 0;
        while j < pairs.len()
            invariant
                i < expected@.len(),
                j <= pairs@.len(),
                found == exists|k: int| 0 <= k < j && #[trigger] pairs@[k].0@ == expected@[i as int].0@,
            decreases pairs@.len() - j,
        {
            if str_eq(pairs[j].0.as_str(), expected[i].0.as_str()) {
                found = true;
            }
            j += 1;
        }
        proof {
            assert(expected@.take(i as int + 1).drop_last() =~= expected@.take(i as int));
            assert(expected@.take(i as int + 1).last() == expected@[i as int]);
        }
        if !found {
            let ghost before = out@;
            out.push(expected[i].0.clone());
            proof { assert(texts(out@) =~= texts(before).push(expected@[i as int].0@)); }
        }
        i += 1;
    }
    assert(expected@.take(expected@.len() as int) =~= expected@);
    out
}


impl TypeChecker {
    /// The key that an index expression names when it is a string or atom
    /// literal.
    fn static_key(index: &Expression) -> (k: Option<String>)
        ensures
            match spec_unwrap_loc(*index) {
                Expression::StringLiteral(s) => k matches Some(t) && t@ == s@,
                Expression::Atom(s) => k matches Some(t) && t@ == s@,
                _ => k is None,
            },
    {
        match unwrap_loc(index) {
            Expression::StringLiteral(s) => Some(s.clone()),
            Expression::Atom(s) => Some(s.clone()),
            _ => None,
        }
    }

    /// An infix expression: both operands, then the operator's rule.
    fn check_infix(&mut self, expr: &Expression, env: EnvIdx) -> (r: Result<TypeIdx, Diagnostic>)
        requires
            old(self).wf(),
            old(self).valid_env(env),
            expr is Infix,
        ensures
            r is Ok ==> final(self).return_type() == old(self).return_type(),
            final(self).checked(old(self)),
            r matches Ok(t) ==> final(self).valid(t),
            r matches Ok(t) ==> fits_form(final(self).type_store()[t.0 as int], *expr),
            expr matches Expression::Infix { operator, .. } && !known_infix(operator@) ==> r is Err,
            expr matches Expression::Infix { left, operator, right } ==> (
                operand_base(*old(self), env, **left) matches Some(lt) ==> (operand_base(*old(self), env, **right)
                    matches Some(rt) ==> literal_infix(operator@, lt, rt, r))),
        decreases expr, 0nat,
    {
        match expr {
            Expression::Infix { left, operator, right } => {
                proof { lemma_operators_differ(); }
                let left_ty = match self.check(left, env) {
                    Ok(t) => t,
                    Err(e) => { return Err(e); },
                };
                let ghost s1 = *self;
                proof {
                    if operand_base(*old(self), env, **left) is Some {
                        if let Expression::Identifier(m) = &**right {
                            assert(s1.env_store() == old(self).env_store());
                            s1.lemma_lookup_frame(old(self), env, m@);
                            old(self).lemma_lookup_valid(env, m@);
                        }
                    }
                }
                let right_ty = match self.check(right, env) {
                    Ok(t) => t,
                    Err(e) => { return Err(e); },
                };
                let ghost lits = operand_base(*old(self), env, **left) is Some
                    && operand_base(*old(self), env, **right) is Some;
                proof {
                    if lits {
                        let lt = operand_base(*old(self), env, **left)->0;
                        let rt = operand_base(*old(self), env, **right)->0;
                        if literal_type(**left) is None {
                            old(self).lemma_root(left_ty);
                        } else {
                            s1.lemma_text_of_base(left_ty);
                        }
                        assert(s1.type_store()[s1.root(left_ty).0 as int] == lt);
                        if literal_type(**right) is None {
                            if let Expression::Identifier(m) = &**right {
                                s1.lemma_lookup_frame(old(self), env, m@);
                            }
                            old(self).lemma_root(right_ty);
                        } else {
                            self.lemma_text_of_base(right_ty);
                        }
                        s1.lemma_root(left_ty);
                        assert(self.root(left_ty) == s1.root(left_ty));
                        assert(self.type_store()[self.root(left_ty).0 as int] == lt);
                        assert(self.type_store()[self.root(right_ty).0 as int] == rt);
                        self.lemma_root(left_ty);
                        self.lemma_root(right_ty);
                        self.lemma_text_of_root(left_ty);
                        self.lemma_text_of_root(right_ty);
                    }
                }
                let op = operator.as_str();
                if str_eq(op, "+") {
                    if let Err(e) = self.unify_here(left_ty, right_ty) {
                        return Err(e);
                    }
                    let resolved = self.find(left_ty);
                    match &self.types[resolved.0] {
                        Type::Number | Type::String | Type::Var(_) | Type::Any => {
                            Ok(left_ty)
                        },
                        _ => {
                            let ty_str = self.type_to_string(resolved);
                            self.fail(join3("Operator '+' is not supported for type '", ty_str.as_str(), "'"))
                        },
                    }
                } else if str_eq(op, "-") || str_eq(op, "*") || str_eq(op, "/") {
                    let num_ty = self.alloc_plain(Type::Number);
                    proof {
                        if lits {
                            self.lemma_root(left_ty);
                            self.lemma_root(right_ty);
                            self.lemma_text_of_root(left_ty);
                            self.lemma_text_of_root(right_ty);
                            self.lemma_text_of_base(num_ty);
                        }
                    }
                    if let Err(e) = self.unify_here(left_ty, num_ty) {
                        return Err(e);
                    }
                    if let Err(e) = self.unify_here(right_ty, num_ty) {
                        return Err(e);
                    }
                    Ok(num_ty)
                } else if str_eq(op, "==") || str_eq(op, "!=") {
                    if let Err(e) = self.unify_here(left_ty, right_ty) {
                        return Err(e);
                    }
                    Ok(self.alloc_plain(Type::Atom))
                } else if str_eq(op, ">") || str_eq(op, "<") {
                    let num_ty = self.alloc_plain(Type::Number);
                    proof {
                        if lits {
                            self.lemma_root(left_ty);
                            self.lemma_root(right_ty);
                            self.lemma_text_of_root(left_ty);
                            self.lemma_text_of_root(right_ty);
                            self.lemma_text_of_base(num_ty);
                        }
                    }
                    if let Err(e) = self.unify_here(left_ty, num_ty) {
                        return Err(e);
                    }
                    if let Err(e) = self.unify_here(right_ty, num_ty) {
                        return Err(e);
                    }
                    Ok(self.alloc_plain(Type::Atom))
                } else {
                    self.fail(join3("Unknown infix operator: '", op, "'"))
                }
            },
            _ => self.fail(owned("Unknown infix operator")),
        }
    }

    /// An assignment: to a variable that is defined and not constant, of a
    /// value whose type unifies with the variable's.
    fn check_assign(&mut self, expr: &Expression, env: EnvIdx) -> (r: Result<TypeIdx, Diagnostic>)
        requires
            old(self).wf(),
            old(self).valid_env(env),
            expr is Assign,
        ensures
            r is Ok ==> final(self).return_type() == old(self).return_type(),
            final(self).checked(old(self)),
            r matches Ok(t) ==> final(self).valid(t),
            r matches Ok(t) ==> fits_form(final(self).type_store()[t.0 as int], *expr),
            expr matches Expression::Assign { name, .. } ==> match old(self).lookup(env, name@) {
                Some(entry) => entry.1 ==> (r matches Err(d)
                    && d.message@ == "Cannot reassign constant '"@ + name@ + "'"@ && *final(self) == *old(self)),
                None => r matches Err(d) && d.message@ == "Undefined variable: '"@ + name@ + "'"@,
            },
            expr matches Expression::Assign { name, value } ==> (old(self).lookup(env, name@) matches Some(e) ==> (
                !e.1 ==> (literal_type(**value) matches Some(lt) ==> ({
                    let vt = old(self).type_store()[old(self).root(e.0).0 as int];
                    &&& vt == lt ==> r is Ok
                    &&& is_base(vt) && vt != lt ==> (r matches Err(d) && d.message@ == mismatch_text(vt, lt))
                })))),
        decreases expr, 0nat,
    {
        match expr {
            Expression::Assign { name, value } => {
                match self.resolve_var(env, name.as_str()) {
                    Some((existing_ty, is_const)) => {
                        if is_const {
                            return self.fail(join3("Cannot reassign constant '", name.as_str(), "'"));
                        }
                        let val_ty = match self.check(value, env) {
                            Ok(t) => t,
                            Err(e) => { return Err(e); },
                        };
                        let ghost after_value = *self;
                        proof {
                            if literal_type(**value) is Some {
                                old(self).lemma_root(existing_ty);
                                self.lemma_root(val_ty);
                                if is_base(self.types@[self.root(existing_ty).0 as int]) {
                                    self.lemma_text_of_root(existing_ty);
                                }
                                self.lemma_text_of_root(val_ty);
                            }
                        }
                        match self.unify_here(existing_ty, val_ty) {
                            Ok(()) => {
                                proof { self.lemma_fits_kept(&after_value, val_ty, **value); }
                                Ok(val_ty)
                            },
                            Err(e) => Err(e),
                        }
                    },
                    None => self.fail(join3("Undefined variable: '", name.as_str(), "'")),
                }
            },
            _ => self.fail(owned("Not an assignment")),
        }
    }

    /// Infers the type of `expr` in environment `env`, or reports the first
    /// type error with the place it was found.
    #[verifier::spinoff_prover]
    pub fn check(&mut self, expr: &Expression, env: EnvIdx) -> (r: Result<TypeIdx, Diagnostic>)
        requires
            old(self).wf(),
            old(self).valid_env(env),
        ensures
            final(self).checked(old(self)),
            r matches Ok(t) ==> final(self).valid(t),
            spec_unwrap_loc(*expr) is Number ==> r is Ok
                && final(self).type_store()[r->Ok_0.0 as int] is Number,
            spec_unwrap_loc(*expr) is StringLiteral ==> r is Ok
                && final(self).type_store()[r->Ok_0.0 as int] is String,
            spec_unwrap_loc(*expr) is Atom ==> r is Ok
                && final(self).type_store()[r->Ok_0.0 as int] is Atom,
            spec_unwrap_loc(*expr) matches Expression::Identifier(name) ==> match old(self).lookup(env, name@) {
                Some(entry) => r == Ok::<TypeIdx, Diagnostic>(entry.0),
                None => r matches Err(d) && d.message@ == "Undefined variable: '"@ + name@ + "'"@,
            },
            spec_unwrap_loc(*expr) matches Expression::Assign { name, .. } ==> match old(self).lookup(env, name@) {
                Some(entry) => entry.1 ==> (r matches Err(d)
                    && d.message@ == "Cannot reassign constant '"@ + name@ + "'"@
                    && final(self).type_store() == old(self).type_store()
                    && final(self).lookup(env, name@) == old(self).lookup(env, name@)),
                None => r matches Err(d) && d.message@ == "Undefined variable: '"@ + name@ + "'"@,
            },
            r matches Ok(t) ==> fits_form(final(self).type_store()[t.0 as int], spec_unwrap_loc(*expr)),
            spec_unwrap_loc(*expr) matches Expression::Prefix { operator, .. }
                && operator@ != "-"@ && operator@ != "!"@ ==> r is Err,
            spec_unwrap_loc(*expr) matches Expression::Infix { operator, .. } && !known_infix(operator@) ==> r is Err,
            spec_unwrap_loc(*expr) matches Expression::Block(es, _) && es@.len() == 0 ==> r is Ok,
            spec_unwrap_loc(*expr) is Continue ==> r is Ok,
            r is Ok ==> final(self).return_type() == old(self).return_type(),
            spec_unwrap_loc(*expr) is Return && old(self).return_type() is None ==> r is Err,
            *expr is Identifier ==> *final(self) == *old(self),
            literal_type(*expr) matches Some(lt) ==> final(self).subst() == old(self).subst()
                && final(self).type_store() == old(self).type_store().push(lt)
                && final(self).env_store() == old(self).env_store()
                && r == Ok::<TypeIdx, Diagnostic>(TypeIdx(old(self).type_store().len() as usize))
                && (forall|t: TypeIdx| old(self).valid(t) ==> #[trigger] final(self).root(t) == old(self).root(t)),
            spec_unwrap_loc(*expr) matches Expression::Infix { left, operator, right } ==> (
                operand_base(*old(self), env, *left) matches Some(lt) ==> (operand_base(*old(self), env, *right)
                    matches Some(rt) ==> literal_infix(operator@, lt, rt, r))),
            *expr matches Expression::Index { left, index } ==> (*left matches Expression::Identifier(n) ==> (
                old(self).lookup(env, n@) matches Some(e1) ==> (literal_type(*index) is Some ==> ({
                    let lt = old(self).type_store()[old(self).root(e1.0).0 as int];
                    is_base(lt) ==> (r matches Err(d)
                        && d.message@ == "Index operator not supported on type '"@ + base_name(lt) + "'"@)
                })))),
            *expr matches Expression::MethodCall { left, arguments, .. } ==> (*left matches Expression::Identifier(n) ==> (
                old(self).lookup(env, n@) matches Some(e1) ==> (arguments@.len() == 0 ==> ({
                    let lt = old(self).type_store()[old(self).root(e1.0).0 as int];
                    is_base(lt) ==> (r matches Err(d) && d.message@ == "Method call failed: receiver is of type '"@
                        + base_name(lt) + "', which is not an object"@)
                })))),
            *expr matches Expression::Const { name, type_ann, .. } ==> (r matches Ok(t) ==> (final(self).lookup(env, name@)
                matches Some(e) && e.1 && (type_ann is None ==> e.0 == t))),
            *expr matches Expression::Let { type_ann, value, .. } ==> (type_ann is None ==> (
                literal_type(*value) matches Some(lt) ==> (r matches Ok(t) && final(self).type_store()[t.0 as int] == lt))),
            *expr matches Expression::Const { type_ann, value, .. } ==> (type_ann is None ==> (
                literal_type(*value) matches Some(lt) ==> (r matches Ok(t) && final(self).type_store()[t.0 as int] == lt))),
            *expr matches Expression::If { condition, consequence, alternative } ==> (alternative matches Some(alt) ==> (
                operand_base(*old(self), env, *condition) is Some ==> (
                operand_base(*old(self), env, *consequence) matches Some(ct) ==> (
                operand_base(*old(self), env, *alt) matches Some(at) ==> (
                    (ct == at ==> (r matches Ok(t) && final(self).type_store()[final(self).root(t).0 as int] == ct))
                    && (ct != at ==> (r matches Err(d) && d.message@ == mismatch_text(ct, at)))))))),
            *expr matches Expression::While { condition, body } ==> (literal_type(*condition) is Some
                && (literal_type(*body) is Some || (spec_unwrap_loc(*body) matches Expression::Block(es, _) && es@.len() == 0))
                ==> (r matches Ok(t) && final(self).type_store()[t.0 as int] is Atom)),
            *expr matches Expression::Let { name, value, .. } ==> (literal_type(*value) is Some
                ==> forall|n: Seq<char>| n != name@ ==> #[trigger] final(self).lookup(env, n) == old(self).lookup(env, n)),
            *expr matches Expression::Const { name, value, .. } ==> (literal_type(*value) is Some
                ==> forall|n: Seq<char>| n != name@ ==> #[trigger] final(self).lookup(env, n) == old(self).lookup(env, n)),
            *expr matches Expression::Let { name, type_ann, .. } ==> (r matches Ok(t) ==> (final(self).lookup(env, name@)
                matches Some(e) && !e.1 && (type_ann is None ==> e.0 == t))),
            *expr matches Expression::Assign { name, value } ==> (old(self).lookup(env, name@) matches Some(e) ==> (
                !e.1 ==> (literal_type(*value) matches Some(lt) ==> ({
                    let vt = old(self).type_store()[old(self).root(e.0).0 as int];
                    &&& vt == lt ==> r is Ok
                    &&& is_base(vt) && vt != lt ==> (r matches Err(d) && d.message@ == mismatch_text(vt, lt))
                })))),
            *expr matches Expression::Let { name, type_ann, .. } ==> (type_ann matches Some(ann) ==> (
                ann_base(ann) matches Some(at) ==> (r is Ok ==> (final(self).lookup(env, name@) matches Some(e)
                    && final(self).type_store()[final(self).root(e.0).0 as int] == at)))),
            *expr matches Expression::Const { name, type_ann, .. } ==> (type_ann matches Some(ann) ==> (
                ann_base(ann) matches Some(at) ==> (r is Ok ==> (final(self).lookup(env, name@) matches Some(e)
                    && final(self).type_store()[final(self).root(e.0).0 as int] == at)))),
            *expr matches Expression::Let { name, type_ann, value } ==> (type_ann matches Some(ann) ==> (
                ann_base(ann) matches Some(at) ==> (literal_type(*value) matches Some(lt) ==> (
                (at == lt ==> r is Ok) && (at != lt ==> (r matches Err(d) && d.message@ == mismatch_text(lt, at)
                    && final(self).lookup(env, name@) == old(self).lookup(env, name@))))))),
            *expr matches Expression::Call { function, arguments } ==> (*function matches Expression::Identifier(n) ==> (
                old(self).lookup(env, n@) matches Some(e1) ==> ({
                    let ft = old(self).type_store()[old(self).root(e1.0).0 as int];
                    is_base(ft) && number_literals(arguments@) ==> (r matches Err(d)
                        && exists|rest: Seq<char>| d.message@ == "Type mismatch: cannot unify '"@ + base_name(ft)
                            + "' with '"@ + rest)
                }))),
            *expr matches Expression::Call { function, arguments } ==> (*function matches Expression::Identifier(n) ==> (
                old(self).lookup(env, n@) matches Some(e1) ==> (
                    old(self).type_store()[old(self).root(e1.0).0 as int] matches Type::Function { params, .. } ==> (
                        params@.len() != arguments@.len() ==> (r matches Err(d)
                            && d.message@ == "Function arity mismatch: expected "@ + spec_decimal(params@.len())
                                + " arguments, got "@ + spec_decimal(arguments@.len())))))),
            *expr matches Expression::Index { left, index } ==> (*left matches Expression::Identifier(n) ==> (
                *index matches Expression::Atom(k) ==> (old(self).lookup(env, n@) matches Some(e1) ==> (
                    old(self).type_store()[old(self).root(e1.0).0 as int] matches Type::Hash(fields) ==> (
                        assoc(fields@, k@) matches Some(ft) ==> (r matches Ok(t)
                            && final(self).root(t) == old(self).root(ft))))))),
        decreases expr, 1nat,
    {
        if let Expression::Loc { line, col, expr: inner } = expr {
            let ghost before = *self;
            self.current_line = *line;
            self.current_col = *col;
            proof {
                assert forall|n: Seq<char>| self.lookup(env, n) == before.lookup(env, n) by {
                    self.lemma_lookup_frame(&before, env, n);
                }
                assert forall|t: TypeIdx| before.valid(t) implies self.root(t) == before.root(t) by {
                    self.lemma_root_extend(&before, t);
                }
                if let Expression::Infix { left, right, .. } = spec_unwrap_loc(**inner) {
                    if let Expression::Identifier(n) = *left {
                        before.lemma_lookup_valid(env, n@);
                    }
                    if let Expression::Identifier(n) = *right {
                        before.lemma_lookup_valid(env, n@);
                    }
                    assert(operand_base(before, env, *left) == operand_base(*self, env, *left));
                    assert(operand_base(before, env, *right) == operand_base(*self, env, *right));
                }
            }
            return self.check(inner, env);
        }
        let ghost orig = *self;
        match expr {
            Expression::Identifier(name) => {
                match self.resolve_var(env, name.as_str()) {
                    Some((ty, _)) => Ok(ty),
                    None => self.fail(join3("Undefined variable: '", name.as_str(), "'")),
                }
            },
            Expression::Number(_) => Ok(self.alloc_plain(Type::Number)),
            Expression::StringLiteral(_) => Ok(self.alloc_plain(Type::String)),
            Expression::Atom(_) => Ok(self.alloc_plain(Type::Atom)),
            Expression::Array(elements) => {
                let elem_ty = self.alloc_var();
                let failed = match self.check_elements_homogeneous(elements, env, elem_ty) {
                    Ok(f) => f,
                    Err(e) => { return Err(e); },
                };
                if failed {
                    let any_ty = self.alloc_plain(Type::Any);
                    Ok(self.alloc_type(Type::Array(any_ty)))
                } else {
                    let found = self.find(elem_ty);
                    Ok(self.alloc_type(Type::Array(found)))
                }
            },
            Expression::Hash(pairs) => {
                let fields = match self.check_pairs(pairs, env) {
                    Ok(f) => f,
                    Err(e) => { return Err(e); },
                };
                Ok(self.alloc_type(Type::Hash(fields)))
            },
            Expression::Prefix { operator, right } => {
                proof { lemma_operators_differ(); }
                let right_ty = match self.check(right, env) {
                    Ok(t) => t,
                    Err(e) => { return Err(e); },
                };
                if str_eq(operator.as_str(), "-") {
                    let num_ty = self.alloc_plain(Type::Number);
                    match self.unify_here(right_ty, num_ty) {
                        Ok(()) => Ok(num_ty),
                        Err(e) => Err(e),
                    }
                } else if str_eq(operator.as_str(), "!") {
                    Ok(self.alloc_plain(Type::Atom))
                } else {
                    self.fail(join3("Unknown prefix operator: '", operator.as_str(), "'"))
                }
            },
            Expression::Infix { .. } => self.check_infix(expr, env),
            Expression::If { condition, consequence, alternative } => {
                let ghost bases = operand_base(*old(self), env, **condition) is Some
                    && operand_base(*old(self), env, **consequence) is Some
                    && (alternative matches Some(a) && operand_base(*old(self), env, **a) is Some);
                if let Err(e) = self.check(condition, env) {
                    return Err(e);
                }
                let ghost s1 = *self;
                proof {
                    if bases {
                        s1.lemma_operand_frame(old(self), env, **consequence);
                        s1.lemma_operand_frame(old(self), env, *alternative->0);
                    }
                }
                let cons_ty = match self.check(consequence, env) {
                    Ok(t) => t,
                    Err(e) => { return Err(e); },
                };
                let ghost after_cons = *self;
                proof {
                    if bases {
                        self.lemma_operand_frame(&s1, env, *alternative->0);
                        if literal_type(**consequence) is Some {
                            self.lemma_text_of_base(cons_ty);
                        } else {
                            if let Expression::Identifier(m) = &**consequence {
                                s1.lemma_lookup_valid(env, m@);
                            }
                            s1.lemma_root(cons_ty);
                        }
                        self.lemma_root(cons_ty);
                        assert(self.type_store()[self.root(cons_ty).0 as int]
                            == operand_base(*old(self), env, **consequence)->0);
                    }
                }
                match alternative {
                    Some(alt) => {
                        let alt_ty = match self.check(alt, env) {
                            Ok(t) => t,
                            Err(e) => { return Err(e); },
                        };
                        let ghost after_alt = *self;
                        proof {
                            if bases {
                                let ct = operand_base(*old(self), env, **consequence)->0;
                                let at = operand_base(*old(self), env, **alt)->0;
                                if literal_type(**alt) is Some {
                                    self.lemma_text_of_base(alt_ty);
                                } else {
                                    if let Expression::Identifier(m) = &**alt {
                                        after_cons.lemma_lookup_valid(env, m@);
                                    }
                                    after_cons.lemma_root(alt_ty);
                                }
                                let rc = after_cons.root(cons_ty);
                                assert(self.root(cons_ty) == rc);
                                assert(self.type_store()[rc.0 as int] == ct);
                                let ra = self.root(alt_ty);
                                self.lemma_root(alt_ty);
                                assert(self.type_store()[ra.0 as int] == at);
                                self.lemma_text_of_base(rc);
                                self.lemma_text_of_base(ra);
                            }
                        }
                        match self.unify_here(cons_ty, alt_ty) {
                            Ok(()) => {
                                proof {
                                    self.lemma_grows_trans(&after_alt, &after_cons);
                                    self.lemma_fits_kept(&after_cons, cons_ty, **consequence);
                                }
                                Ok(cons_ty)
                            },
                            Err(e) => Err(e),
                        }
                    },
                    None => Ok(self.alloc_plain(Type::Any)),
                }
            },
            Expression::Block(expressions, _) => {
                let block_env = self.new_enclosed_env(env);
                if expressions.len() == 0 {
                    return Ok(self.alloc_plain(Type::Atom));
                }
                let initial = self.alloc_plain(Type::Atom);
                self.check_last(expressions, block_env, initial)
            },
            Expression::Let { name, type_ann, value } => self.check_binding(name, type_ann, value, env, false),
            Expression::Const { name, type_ann, value } => self.check_binding(name, type_ann, value, env, true),
            Expression::Assign { .. } => self.check_assign(expr, env),
            Expression::Return(inner) => {
                let expr_ty = match self.check(inner, env) {
                    Ok(t) => t,
                    Err(e) => { return Err(e); },
                };
                let ghost after_inner = *self;
                match self.current_return_type {
                    Some(expected_ty) => {
                        match self.unify_here(expr_ty, expected_ty) {
                            Ok(()) => {
                                proof { self.lemma_fits_kept(&after_inner, expr_ty, **inner); }
                                Ok(expr_ty)
                            },
                            Err(e) => Err(e),
                        }
                    },
                    None => self.fail(owned("Return statement outside function context")),
                }
            },
            Expression::Function { .. } => self.check_function(expr, env),
            Expression::Call { .. } => self.check_call(expr, env),
            Expression::MethodCall { .. } => self.check_method_call(expr, env),
            Expression::Index { .. } => self.check_index(expr, env),
            Expression::IndexAssign { .. } => self.check_index_assign(expr, env),
            Expression::Loop { body } => {
                if let Err(e) = self.check(body, env) {
                    return Err(e);
                }
                Ok(self.alloc_plain(Type::Atom))
            },
            Expression::While { condition, body } => {
                if let Err(e) = self.check(condition, env) {
                    return Err(e);
                }
                if let Err(e) = self.check(body, env) {
                    return Err(e);
                }
                Ok(self.alloc_plain(Type::Atom))
            },
            Expression::For { element, iterable, body } => {
                let iter_ty = match self.check(iterable, env) {
                    Ok(t) => t,
                    Err(e) => { return Err(e); },
                };
                let resolved_iter = self.find_deep(iter_ty);
                let loop_env = self.new_enclosed_env(env);
                proof { assert(type_wf(self.types@[resolved_iter.0 as int], self.types@.len())); }
                let iter_type = copy_type(&self.types[resolved_iter.0]);
                let elem_ty = match iter_type {
                    Type::Array(inner) => {
                        proof { assert(child_indices(self.types@[resolved_iter.0 as int])[0] == inner); }
                        inner
                    },
                    Type::Var(_) => {
                        let inner = self.alloc_var();
                        let arr_ty = self.alloc_type(Type::Array(inner));
                        if let Err(e) = self.unify_here(iter_ty, arr_ty) {
                            return Err(e);
                        }
                        inner
                    },
                    _ => self.alloc_plain(Type::Any),
                };
                self.define_var(loop_env, element.clone(), elem_ty, false);
                if let Err(e) = self.check(body, loop_env) {
                    return Err(e);
                }
                Ok(self.alloc_plain(Type::Atom))
            },
            Expression::ForHash { key, value, iterable, body } => {
                let iter_ty = match self.check(iterable, env) {
                    Ok(t) => t,
                    Err(e) => { return Err(e); },
                };
                let resolved_iter = self.find_deep(iter_ty);
                let loop_env = self.new_enclosed_env(env);
                let is_var = match &self.types[resolved_iter.0] {
                    Type::Var(_) => true,
                    _ => false,
                };
                if is_var {
                    let hash_ty = self.alloc_type(Type::Hash(Vec::new()));
                    if let Err(e) = self.unify_here(iter_ty, hash_ty) {
                        return Err(e);
                    }
                }
                let str_ty = self.alloc_plain(Type::String);
                let any_ty = self.alloc_plain(Type::Any);
                self.define_var(loop_env, key.clone(), str_ty, false);
                self.define_var(loop_env, value.clone(), any_ty, false);
                if let Err(e) = self.check(body, loop_env) {
                    return Err(e);
                }
                Ok(self.alloc_plain(Type::Atom))
            },
            Expression::Tuple(elements) => {
                let element_types = match self.check_all(elements, env) {
                    Ok(v) => v,
                    Err(e) => { return Err(e); },
                };
                Ok(self.alloc_type(Type::Tuple(element_types)))
            },
            Expression::Match { subject, cases } => {
                let subject_ty = match self.check(subject, env) {
                    Ok(t) => t,
                    Err(e) => { return Err(e); },
                };
                let ret_ty = self.alloc_var();
                if let Err(e) = self.check_cases(cases, subject_ty, ret_ty, env) {
                    return Err(e);
                }
                Ok(self.find_deep(ret_ty))
            },
            Expression::Question(inner) | Expression::Import(inner) => {
                if let Err(e) = self.check(inner, env) {
                    return Err(e);
                }
                Ok(self.alloc_plain(Type::Any))
            },
            Expression::Break(value) => {
                if let Some(v) = value {
                    if let Err(e) = self.check(v, env) {
                        return Err(e);
                    }
                }
                Ok(self.alloc_plain(Type::Any))
            },
            Expression::Continue => Ok(self.alloc_plain(Type::Any)),
            Expression::Loc { expr: inner, .. } => self.check(inner, env),
        }
    }

    /// Checks the elements of an array literal against one element type;
    /// returns whether some element did not unify with it.
    fn check_elements_homogeneous(&mut self, elements: &Vec<Expression>, env: EnvIdx, elem_ty: TypeIdx) -> (r: Result<bool, Diagnostic>)
        requires
            old(self).wf(),
            old(self).valid_env(env),
            old(self).valid(elem_ty),
        ensures
            r is Ok ==> final(self).return_type() == old(self).return_type(),
            final(self).checked(old(self)),
            elements@.len() == 0 ==> r == Ok::<bool, Diagnostic>(false) && *final(self) == *old(self),
            number_literals(elements@) ==> r is Ok,
        decreases elements, 3nat,
    {
        let ghost orig = *self;
        let mut failed = false;
        let mut i: usize = 0;
        while i < elements.len()
            invariant
                self.return_type() == old(self).return_type(),
                self.checked(&orig),
                *old(self) == orig,
                self.valid_env(env),
                self.valid(elem_ty),
                i <= elements@.len(),
                i == 0 ==> *self == orig && !failed,
            decreases elements@.len() - i,
        {
            let el_ty = match self.check(&elements[i], env) {
                Ok(t) => t,
                Err(e) => { return Err(e); },
            };
            if self.unify(elem_ty, el_ty).is_err() {
                failed = true;
            }
            i += 1;
        }
        Ok(failed)
    }

    /// Checks a `let` or `const` binding and defines its name in `env`.
    fn check_binding(&mut self, name: &String, type_ann: &Option<TypeAnn>, value: &Box<Expression>, env: EnvIdx, is_const: bool)
        -> (r: Result<TypeIdx, Diagnostic>)
        requires
            old(self).wf(),
            old(self).valid_env(env),
        ensures
            r is Ok ==> final(self).return_type() == old(self).return_type(),
            final(self).checked(old(self)),
            r matches Ok(t) ==> final(self).valid(t),
            r matches Ok(t) ==> fits_form(final(self).type_store()[t.0 as int], **value),
            r matches Ok(t) ==> (type_ann is None ==> final(self).lookup(env, name@) == Some((t, is_const))),
            r is Ok ==> (final(self).lookup(env, name@) matches Some(entry) && entry.1 == is_const),
            type_ann is None && spec_unwrap_loc(**value) is Number ==> r is Ok,
            type_ann matches Some(ann) ==> (ann_base(*ann) matches Some(at) ==> (literal_type(**value) matches Some(lt) ==> (
                (at == lt ==> r is Ok) && (at != lt ==> (r matches Err(d) && d.message@ == mismatch_text(lt, at)
                    && final(self).lookup(env, name@) == old(self).lookup(env, name@)))))),
            literal_type(**value) is Some ==> forall|n: Seq<char>| n != name@
                ==> #[trigger] final(self).lookup(env, n) == old(self).lookup(env, n),
            type_ann is None ==> (literal_type(**value) matches Some(lt) ==> (r matches Ok(t)
                && final(self).type_store()[t.0 as int] == lt)),
            type_ann matches Some(ann) ==> (ann_base(*ann) matches Some(at) ==> (r is Ok
                ==> (final(self).lookup(env, name@) matches Some(e)
                    && final(self).type_store()[final(self).root(e.0).0 as int] == at))),
        decreases **value, 3nat,
    {
        let is_function = match unwrap_loc(value) {
            Expression::Function { .. } => true,
            _ => false,
        };
        match type_ann {
            Some(ann) => {
                let expected_ty = self.map_type_ann(ann);
                let ghost mapped = *self;
                if is_function {
                    self.define_var(env, name.clone(), expected_ty, is_const);
                }
                proof {
                    if ann_base(*ann) is Some {
                        self.lemma_root(expected_ty);
                    }
                }
                let val_ty = match self.check_expected(value, env, expected_ty) {
                    Ok(t) => t,
                    Err(e) => {
                        proof {
                            if literal_type(**value) is Some {
                                self.lemma_lookup_frame(old(self), env, name@);
                                assert forall|n: Seq<char>| n != name@
                                    implies #[trigger] self.lookup(env, n) == old(self).lookup(env, n) by {
                                    self.lemma_lookup_frame(old(self), env, n);
                                }
                            }
                        }
                        return Err(e);
                    },
                };
                let ghost mid = *self;
                self.define_var(env, name.clone(), expected_ty, is_const);
                proof {
                    self.lemma_fits_kept(&mid, val_ty, **value);
                    if ann_base(*ann) is Some {
                        assert(shape(self.type_store()[expected_ty.0 as int]) == shape(mapped.type_store()[expected_ty.0 as int]));
                        self.lemma_plain_root(expected_ty);
                    }
                    if literal_type(**value) is Some {
                        assert forall|n: Seq<char>| n != name@
                            implies #[trigger] self.lookup(env, n) == old(self).lookup(env, n) by {
                            mid.lemma_lookup_frame(old(self), env, n);
                        }
                    }
                }
                Ok(val_ty)
            },
            None => {
                let ghost start = *self;
                let val_ty = if is_function {
                    let placeholder = self.alloc_var();
                    self.define_var(env, name.clone(), placeholder, is_const);
                    let actual_ty = match self.check(value, env) {
                        Ok(t) => t,
                        Err(e) => { return Err(e); },
                    };
                    let ghost checked_value = *self;
                    if let Err(e) = self.unify_here(placeholder, actual_ty) {
                        return Err(e);
                    }
                    proof { self.lemma_fits_kept(&checked_value, actual_ty, **value); }
                    actual_ty
                } else {
                    match self.check(value, env) {
                        Ok(t) => t,
                        Err(e) => { return Err(e); },
                    }
                };
                let ghost mid = *self;
                self.define_var(env, name.clone(), val_ty, is_const);
                proof {
                    self.lemma_fits_kept(&mid, val_ty, **value);
                    if literal_type(**value) is Some {
                        assert forall|n: Seq<char>| n != name@
                            implies #[trigger] self.lookup(env, n) == old(self).lookup(env, n) by {
                            mid.lemma_lookup_frame(old(self), env, n);
                        }
                    }
                }
                Ok(val_ty)
            },
        }
    }
}


impl TypeChecker {
    /// A function literal: parameters in a new scope, the body checked with
    /// the return type in force, the result with every index resolved.
    fn check_function(&mut self, expr: &Expression, env: EnvIdx) -> (r: Result<TypeIdx, Diagnostic>)
        requires
            old(self).wf(),
            old(self).valid_env(env),
        ensures
            r is Ok ==> final(self).return_type() == old(self).return_type(),
            final(self).checked(old(self)),
            r matches Ok(t) ==> final(self).valid(t),
            r matches Ok(t) ==> (expr matches Expression::Function { parameters, .. } ==> (final(self).type_store()[t.0 as int]
                matches Type::Function { params, .. } && params@.len() == parameters@.len())),
            expr matches Expression::Function { body, return_type, .. } ==> (body@.len() == 0
                && (return_type == Some(TypeAnn::Atom) || return_type == Some(TypeAnn::Any)) ==> r is Ok),
        decreases expr, 0nat,
    {
        match expr {
            Expression::Function { parameters, return_type, body } => {
                let ghost orig = *self;
                let fn_env = self.new_enclosed_env(env);
                let param_types = self.define_parameters(parameters, fn_env);
                let prev_ret = self.current_return_type;
                let expected_ret = match return_type {
                    Some(ann) => self.map_type_ann(ann),
                    None => self.alloc_var(),
                };
                self.current_return_type = Some(expected_ret);
                let initial = self.alloc_plain(Type::Atom);
                let body_ty = match self.check_last(body, fn_env, initial) {
                    Ok(t) => t,
                    Err(e) => { return Err(e); },
                };
                if let Err(e) = self.unify_here(body_ty, expected_ret) {
                    return Err(e);
                }
                let final_ret = self.find_deep(expected_ret);
                self.current_return_type = prev_ret;
                let final_params = self.find_deep_each(&param_types);
                Ok(self.alloc_type(Type::Function { params: final_params, ret: final_ret }))
            },
            _ => Ok(self.alloc_plain(Type::Any)),
        }
    }

    /// Defines each parameter in `fn_env`, with its annotated type or a
    /// fresh variable; returns their types.
    fn define_parameters(&mut self, parameters: &Vec<(String, Option<TypeAnn>)>, fn_env: EnvIdx) -> (r: Vec<TypeIdx>)
        requires
            old(self).wf(),
            old(self).valid_env(fn_env),
        ensures
            final(self).checked(old(self)),
            final(self).return_type() == old(self).return_type(),
            forall|k: int| 0 <= k < r@.len() ==> final(self).valid(#[trigger] r@[k]),
            r@.len() == parameters@.len(),
    {
        let ghost orig = *self;
        let mut out: Vec<TypeIdx> = Vec::new();
        let mut i: usize = 0;
        while i < parameters.len()
            invariant
                self.checked(&orig),
                self.return_type() == orig.return_type(),
                self.valid_env(fn_env),
                i <= parameters@.len(),
                out@.len() == i,
                forall|k: int| 0 <= k < out@.len() ==> self.valid(#[trigger] out@[k]),
            decreases parameters@.len() - i,
        {
            let p_ty = match &parameters[i].1 {
                Some(ann) => self.map_type_ann(ann),
                None => self.alloc_var(),
            };
            self.define_var(fn_env, parameters[i].0.clone(), p_ty, false);
            out.push(p_ty);
            i += 1;
        }
        out
    }

    /// `find_deep` of each index.
    fn find_deep_each(&mut self, items: &Vec<TypeIdx>) -> (r: Vec<TypeIdx>)
        requires
            old(self).wf(),
            forall|k: int| 0 <= k < items@.len() ==> old(self).valid(#[trigger] items@[k]),
        ensures
            final(self).checked(old(self)),
            final(self).return_type() == old(self).return_type(),
            r@.len() == items@.len(),
            forall|k: int| 0 <= k < r@.len() ==> final(self).valid(#[trigger] r@[k]),
    {
        let ghost orig = *self;
        let mut out: Vec<TypeIdx> = Vec::new();
        let mut i: usize = 0;
        while i < items.len()
            invariant
                self.checked(&orig),
                self.return_type() == orig.return_type(),
                forall|k: int| 0 <= k < items@.len() ==> orig.valid(#[trigger] items@[k]),
                i <= items@.len(),
                out@.len() == i,
                forall|k: int| 0 <= k < out@.len() ==> self.valid(#[trigger] out@[k]),
            decreases items@.len() - i,
        {
            let ghost before = *self;
            let t = self.find_deep(items[i]);
            proof { before.lemma_root(items@[i as int]); }
            out.push(t);
            i += 1;
        }
        out
    }

    /// A call: against the callee's function type when it has one.
    fn check_call(&mut self, expr: &Expression, env: EnvIdx) -> (r: Result<TypeIdx, Diagnostic>)
        requires
            old(self).wf(),
            old(self).valid_env(env),
        ensures
            r is Ok ==> final(self).return_type() == old(self).return_type(),
            final(self).checked(old(self)),
            r matches Ok(t) ==> final(self).valid(t),
            expr matches Expression::Call { function, arguments } ==> (**function matches Expression::Identifier(n) ==> (
                old(self).lookup(env, n@) matches Some(e1) ==> ({
                    let ft = old(self).type_store()[old(self).root(e1.0).0 as int];
                    &&& ft is Any && number_literals(arguments@) ==> r is Ok
                    &&& ft matches Type::Function { params, .. } ==> (params@.len() != arguments@.len() ==> (
                        r matches Err(d) && d.message@ == "Function arity mismatch: expected "@
                            + spec_decimal(params@.len()) + " arguments, got "@ + spec_decimal(arguments@.len())))
                }))),
            expr matches Expression::Call { function, arguments } ==> (**function matches Expression::Identifier(n) ==> (
                old(self).lookup(env, n@) matches Some(e1) ==> ({
                    let ft = old(self).type_store()[old(self).root(e1.0).0 as int];
                    is_base(ft) && number_literals(arguments@) ==> (r matches Err(d)
                        && exists|rest: Seq<char>| d.message@ == "Type mismatch: cannot unify '"@ + base_name(ft)
                            + "' with '"@ + rest)
                }))),
        decreases expr, 0nat,
    {
        match expr {
            Expression::Call { function, arguments } => {
                let fn_ty = match self.check(function, env) {
                    Ok(t) => t,
                    Err(e) => { return Err(e); },
                };
                let ghost after_fn = *self;
                let resolved_fn = self.find_deep(fn_ty);
                let ghost after_deep = *self;
                proof {
                    if let Expression::Identifier(nm) = &**function {
                        if old(self).lookup(env, nm@) is Some {
                            let e1 = old(self).lookup(env, nm@)->0;
                            assert(fn_ty == e1.0);
                            old(self).lemma_root(fn_ty);
                            let rt = old(self).root(fn_ty);
                            after_fn.lemma_root(rt);
                            assert(resolved_fn == rt);
                            assert(shape(after_deep.types@[rt.0 as int]) == shape(old(self).types@[rt.0 as int]));
                        }
                    }
                }
                proof { assert(type_wf(self.types@[resolved_fn.0 as int], self.types@.len())); }
                match copy_type(&self.types[resolved_fn.0]) {
                    Type::Function { params, ret } => {
                        if params.len() != arguments.len() {
                            return self.fail(join3(
                                join2("Function arity mismatch: expected ", decimal_string(params.len()).as_str()).as_str(),
                                " arguments, got ",
                                decimal_string(arguments.len()).as_str(),
                            ));
                        }
                        proof {
                            assert forall|k: int| 0 <= k < params@.len() implies self.valid(#[trigger] params@[k]) by {
                                assert(child_indices(self.types@[resolved_fn.0 as int])[k] == params@[k]);
                            }
                            assert(child_indices(self.types@[resolved_fn.0 as int])[params@.len() as int] == ret);
                        }
                        match self.check_all_expected(arguments, env, &params) {
                            Ok(_) => Ok(ret),
                            Err(e) => Err(e),
                        }
                    },
                    Type::Any => {
                        if let Err(e) = self.check_all(arguments, env) {
                            return Err(e);
                        }
                        Ok(self.alloc_plain(Type::Any))
                    },
                    _ => {
                        let arg_types = match self.check_all(arguments, env) {
                            Ok(v) => v,
                            Err(e) => { return Err(e); },
                        };
                        let ret_ty = self.alloc_var();
                        let mapped_fn = self.alloc_type(Type::Function { params: arg_types, ret: ret_ty });
                        proof {
                            self.lemma_root(mapped_fn);
                            if let Expression::Identifier(nm) = &**function {
                                if old(self).lookup(env, nm@) is Some && number_literals(arguments@) {
                                    let e1 = old(self).lookup(env, nm@)->0;
                                    assert(fn_ty == e1.0);
                                    old(self).lemma_root(fn_ty);
                                    let rt = old(self).root(fn_ty);
                                    after_fn.lemma_root(rt);
                                    assert(resolved_fn == rt);
                                    assert(self.root(fn_ty) == rt);
                                    assert(shape(after_deep.types@[rt.0 as int]) == shape(old(self).types@[rt.0 as int]));
                                    let ft = old(self).types@[rt.0 as int];
                                    if is_base(ft) {
                                        assert(self.types@[rt.0 as int] == ft);
                                        self.lemma_text_of_root(fn_ty);
                                    }
                                }
                            }
                        }
                        let ghost before_unify = *self;
                        proof {
                            let rt = self.root(fn_ty);
                            self.lemma_root(fn_ty);
                            if is_base(self.types@[rt.0 as int]) {
                                self.lemma_text_of_root(rt);
                            }
                        }
                        match self.unify_here(fn_ty, mapped_fn) {
                            Ok(()) => Ok(ret_ty),
                            Err(e) => {
                                proof {
                                    let rt = before_unify.root(fn_ty);
                                    let ft = before_unify.types@[rt.0 as int];
                                    if is_base(ft) {
                                        let rest = before_unify.text_of(mapped_fn) + "'"@;
                                        assert(e.message@ =~= "Type mismatch: cannot unify '"@ + base_name(ft)
                                            + "' with '"@ + rest);
                                    }
                                }
                                Err(e)
                            },
                        }
                    },
                }
            },
            _ => Ok(self.alloc_plain(Type::Any)),
        }
    }

    /// `receiver:method(args)`: the receiver must be a record (or unknown),
    /// whose field `method` is a function taking the receiver first.
    fn check_method_call(&mut self, expr: &Expression, env: EnvIdx) -> (r: Result<TypeIdx, Diagnostic>)
        requires
            old(self).wf(),
            old(self).valid_env(env),
        ensures
            r is Ok ==> final(self).return_type() == old(self).return_type(),
            final(self).checked(old(self)),
            r matches Ok(t) ==> final(self).valid(t),
            expr matches Expression::MethodCall { left, arguments, .. } ==> (**left matches Expression::Identifier(n) ==> (
                old(self).lookup(env, n@) matches Some(e1) ==> (arguments@.len() == 0
                    && old(self).type_store()[old(self).root(e1.0).0 as int] is Any ==> r is Ok))),
            expr matches Expression::MethodCall { left, arguments, .. } ==> (**left matches Expression::Identifier(n) ==> (
                old(self).lookup(env, n@) matches Some(e1) ==> (arguments@.len() == 0 ==> ({
                    let lt = old(self).type_store()[old(self).root(e1.0).0 as int];
                    is_base(lt) ==> (r matches Err(d) && d.message@ == "Method call failed: receiver is of type '"@
                        + base_name(lt) + "', which is not an object"@)
                })))),
        decreases expr, 0nat,
    {
        match expr {
            Expression::MethodCall { left, method, arguments } => {
                let left_ty = match self.check(left, env) {
                    Ok(t) => t,
                    Err(e) => { return Err(e); },
                };
                let mut checked_args = match self.check_all(arguments, env) {
                    Ok(v) => v,
                    Err(e) => { return Err(e); },
                };
                let ghost s1 = *self;
                checked_args.insert(0, left_ty);
                let ret_ty = self.alloc_var();
                let ghost s2 = *self;
                let resolved_left = self.find_deep(left_ty);
                proof {
                    assert(type_wf(self.types@[resolved_left.0 as int], self.types@.len()));
                    self.lemma_root(resolved_left);
                    if is_base(self.types@[resolved_left.0 as int]) {
                        self.lemma_text_of_root(resolved_left);
                    }
                    if s1 == *old(self) {
                        assert(s2.root(left_ty) == s1.root(left_ty));
                        assert(resolved_left == old(self).root(left_ty));
                        old(self).lemma_root(left_ty);
                        assert(shape(self.types@[resolved_left.0 as int]) == shape(s2.types@[resolved_left.0 as int]));
                        assert(shape(s2.types@[resolved_left.0 as int]) == shape(s1.types@[resolved_left.0 as int]));
                    }
                }
                match copy_type(&self.types[resolved_left.0]) {
                    Type::Hash(fields) => {
                        proof {
                            assert forall|k: int| 0 <= k < fields@.len() implies self.valid(#[trigger] fields@[k].1) by {
                                assert(child_indices(self.types@[resolved_left.0 as int])[k] == fields@[k].1);
                            }
                        }
                        match assoc_position(&fields, method) {
                            Some(pos) => {
                                let method_ty = fields[pos].1;
                                let resolved_method = self.find_deep(method_ty);
                                proof { assert(type_wf(self.types@[resolved_method.0 as int], self.types@.len())); }
                                match copy_type(&self.types[resolved_method.0]) {
                                    Type::Function { params, ret } => {
                                        if params.len() == 0 || params.len() - 1 != arguments.len() {
                                            return self.fail(join3(
                                                join2("Function arity mismatch: expected ",
                                                    decimal_string(params.len().wrapping_sub(1)).as_str()).as_str(),
                                                " arguments, got ",
                                                decimal_string(arguments.len()).as_str(),
                                            ));
                                        }
                                        proof {
                                            assert forall|k: int| 0 <= k < params@.len() implies self.valid(#[trigger] params@[k]) by {
                                                assert(child_indices(self.types@[resolved_method.0 as int])[k] == params@[k]);
                                            }
                                            assert(child_indices(self.types@[resolved_method.0 as int])[params@.len() as int] == ret);
                                        }
                                        if let Err(e) = self.unify_here(left_ty, params[0]) {
                                            return Err(e);
                                        }
                                        let rest = slice_to_vec(slice_subrange(params.as_slice(), 1, params.len()));
                                        match self.check_all_expected(arguments, env, &rest) {
                                            Ok(_) => Ok(ret),
                                            Err(e) => Err(e),
                                        }
                                    },
                                    _ => {
                                        let mut again = match self.check_all(arguments, env) {
                                            Ok(v) => v,
                                            Err(e) => { return Err(e); },
                                        };
                                        again.insert(0, left_ty);
                                        let m_fn = self.alloc_type(Type::Function { params: again, ret: ret_ty });
                                        match self.unify_here(method_ty, m_fn) {
                                            Ok(()) => Ok(ret_ty),
                                            Err(e) => Err(e),
                                        }
                                    },
                                }
                            },
                            None => {
                                let any_ty = self.alloc_plain(Type::Any);
                                let mut method_args = match self.check_all(arguments, env) {
                                    Ok(v) => v,
                                    Err(e) => { return Err(e); },
                                };
                                method_args.insert(0, any_ty);
                                let method_ty = self.alloc_type(Type::Function { params: method_args, ret: ret_ty });
                                self.record_insert(resolved_left, method.clone(), method_ty);
                                Ok(ret_ty)
                            },
                        }
                    },
                    Type::Any => Ok(self.alloc_plain(Type::Any)),
                    Type::Var(_) => {
                        let any_ty = self.alloc_plain(Type::Any);
                        let mut method_args = copy_indices(&checked_args);
                        method_args.set(0, any_ty);
                        let method_ty = self.alloc_type(Type::Function { params: method_args, ret: ret_ty });
                        let mut fields: Vec<(String, TypeIdx)> = Vec::new();
                        fields.push((method.clone(), method_ty));
                        let hash_ty = self.alloc_type(Type::Hash(fields));
                        match self.unify_here(left_ty, hash_ty) {
                            Ok(()) => Ok(ret_ty),
                            Err(e) => Err(e),
                        }
                    },
                    _ => {
                        let ty_str = self.type_to_string(resolved_left);
                        self.fail(join3("Method call failed: receiver is of type '", ty_str.as_str(),
                            "', which is not an object"))
                    },
                }
            },
            _ => Ok(self.alloc_plain(Type::Any)),
        }
    }

    /// `left[index]` (and `left.name`).
    fn check_index(&mut self, expr: &Expression, env: EnvIdx) -> (r: Result<TypeIdx, Diagnostic>)
        requires
            old(self).wf(),
            old(self).valid_env(env),
        ensures
            r is Ok ==> final(self).return_type() == old(self).return_type(),
            final(self).checked(old(self)),
            r matches Ok(t) ==> final(self).valid(t),
            expr matches Expression::Index { left, index } ==> (**left matches Expression::Identifier(n) ==> (
                **index matches Expression::Identifier(m) ==> (old(self).lookup(env, n@) matches Some(e1) ==> (
                    old(self).lookup(env, m@) is Some && old(self).type_store()[old(self).root(e1.0).0 as int] is Any
                        ==> r is Ok)))),
            expr matches Expression::Index { left, index } ==> (**left matches Expression::Identifier(n) ==> (
                old(self).lookup(env, n@) matches Some(e1) ==> (literal_type(**index) is Some ==> ({
                    let lt = old(self).type_store()[old(self).root(e1.0).0 as int];
                    is_base(lt) ==> (r matches Err(d)
                        && d.message@ == "Index operator not supported on type '"@ + base_name(lt) + "'"@)
                })))),
            expr matches Expression::Index { left, index } ==> (**left matches Expression::Identifier(n) ==> (
                **index matches Expression::Atom(k) ==> (old(self).lookup(env, n@) matches Some(e1) ==> (
                    old(self).type_store()[old(self).root(e1.0).0 as int] matches Type::Hash(fields) ==> (
                        assoc(fields@, k@) matches Some(ft) ==> (r matches Ok(t)
                            && final(self).root(t) == old(self).root(ft))))))),
        decreases expr, 0nat,
    {
        match expr {
            Expression::Index { left, index } => {
                let left_ty = match self.check(left, env) {
                    Ok(t) => t,
                    Err(e) => { return Err(e); },
                };
                let index_ty = match self.check(index, env) {
                    Ok(t) => t,
                    Err(e) => { return Err(e); },
                };
                let ghost after_index = *self;
                let resolved_left = self.find_deep(left_ty);
                proof {
                    if let Expression::Identifier(nm) = &**left {
                        if let Expression::Atom(kk) = &**index {
                            if old(self).lookup(env, nm@) is Some {
                                let e1 = old(self).lookup(env, nm@)->0;
                                old(self).lemma_root(e1.0);
                                let rt = old(self).root(e1.0);
                                assert(left_ty == e1.0);
                                assert(after_index.root(left_ty) == rt);
                                assert(resolved_left == rt);
                                assert(after_index.types@[rt.0 as int] == old(self).types@[rt.0 as int]);
                                assert(shape(self.types@[rt.0 as int]) == shape(after_index.types@[rt.0 as int]));
                            }
                        }
                    }
                }
                proof {
                    assert(type_wf(self.types@[resolved_left.0 as int], self.types@.len()));
                    after_index.lemma_root(left_ty);
                    assert(shape(self.types@[resolved_left.0 as int]) == shape(after_index.types@[resolved_left.0 as int]));
                    if let Expression::Identifier(nm) = &**left {
                        if literal_type(**index) is Some && old(self).lookup(env, nm@) is Some {
                            let e1 = old(self).lookup(env, nm@)->0;
                            assert(left_ty == e1.0);
                            assert(old(self).valid(left_ty));
                            old(self).lemma_root(left_ty);
                            let rt = old(self).root(left_ty);
                            assert(after_index.root(left_ty) == rt);
                            after_index.lemma_root(rt);
                            assert(resolved_left == rt);
                            assert(self.root(resolved_left) == after_index.root(rt));
                            assert(after_index.types@[rt.0 as int] == old(self).types@[rt.0 as int]);
                            let lt = old(self).types@[rt.0 as int];
                            if is_base(lt) {
                                assert(shape(self.types@[rt.0 as int]) == shape(lt));
                                assert(self.types@[rt.0 as int] == lt);
                                self.lemma_text_of_root(resolved_left);
                            }
                        }
                    }
                    self.lemma_root(resolved_left);
                    if is_base(self.types@[resolved_left.0 as int]) {
                        self.lemma_text_of_root(resolved_left);
                    }
                }
                match copy_type(&self.types[resolved_left.0]) {
                    Type::Array(elem_ty) => {
                        proof { assert(child_indices(self.types@[resolved_left.0 as int])[0] == elem_ty); }
                        let num_ty = self.alloc_plain(Type::Number);
                        match self.unify_here(index_ty, num_ty) {
                            Ok(()) => Ok(elem_ty),
                            Err(e) => Err(e),
                        }
                    },
                    Type::Hash(fields) => {
                        proof {
                            assert forall|k: int| 0 <= k < fields@.len() implies self.valid(#[trigger] fields@[k].1) by {
                                assert(child_indices(self.types@[resolved_left.0 as int])[k] == fields@[k].1);
                            }
                        }
                        match Self::static_key(index) {
                            Some(key) => match assoc_position(&fields, key.as_str()) {
                                Some(pos) => {
                                    proof {
                                        if let Expression::Identifier(nm) = &**left {
                                            if let Expression::Atom(kk) = &**index {
                                                if old(self).lookup(env, nm@) is Some {
                                                    let e1 = old(self).lookup(env, nm@)->0;
                                                    assert(left_ty == e1.0);
                                                    old(self).lemma_root(e1.0);
                                                    let rt = old(self).root(e1.0);
                                                    assert(after_index.root(left_ty) == rt);
                                                    assert(resolved_left == rt);
                                                    assert(after_index.types@[rt.0 as int] == old(self).types@[rt.0 as int]);
                                                    if old(self).types@[rt.0 as int] is Hash {
                                                        let f0 = old(self).types@[rt.0 as int]->Hash_0;
                                                        assert(after_index.kept_children(self.types@[rt.0 as int],
                                                            after_index.types@[rt.0 as int]));
                                                        assert(fields@ == self.types@[rt.0 as int]->Hash_0@);
                                                        assert(fields@[pos as int].0@ == f0@[pos as int].0@);
                                                        assert forall|j: int| 0 <= j < pos implies f0@[j].0@ != kk@ by {
                                                            assert(fields@[j].0@ == f0@[j].0@);
                                                        }
                                                        lemma_assoc_at(f0@, kk@, pos as int);
                                                        assert(child_indices(self.types@[rt.0 as int])[pos as int]
                                                            == fields@[pos as int].1);
                                                        assert(child_indices(after_index.types@[rt.0 as int])[pos as int]
                                                            == f0@[pos as int].1);
                                                        assert(type_wf(old(self).types@[rt.0 as int], old(self).types@.len()));
                                                        assert(old(self).valid(f0@[pos as int].1));
                                                    }
                                                }
                                            }
                                        }
                                    }
                                    Ok(fields[pos].1)
                                },
                                None => {
                                    proof {
                                        if let Expression::Identifier(nm) = &**left {
                                            if let Expression::Atom(kk) = &**index {
                                                if old(self).lookup(env, nm@) is Some {
                                                    let e1 = old(self).lookup(env, nm@)->0;
                                                    old(self).lemma_root(e1.0);
                                                    let rt = old(self).root(e1.0);
                                                    assert(resolved_left == rt);
                                                    assert(after_index.types@[rt.0 as int] == old(self).types@[rt.0 as int]);
                                                    if old(self).types@[rt.0 as int] is Hash {
                                                        let f0 = old(self).types@[rt.0 as int]->Hash_0;
                                                        assert(after_index.kept_children(self.types@[rt.0 as int],
                                                            after_index.types@[rt.0 as int]));
                                                        assert(fields@ == self.types@[rt.0 as int]->Hash_0@);
                                                        if assoc(f0@, kk@) is Some {
                                                            let j = lemma_assoc_some(f0@, kk@);
                                                            assert(fields@[j].0@ == f0@[j].0@);
                                                            lemma_assoc_some_exists(fields@, kk@, j);
                                                        }
                                                    }
                                                }
                                            }
                                        }
                                    }
                                    let new_prop_ty = self.alloc_var();
                                    self.record_insert(resolved_left, key, new_prop_ty);
                                    Ok(new_prop_ty)
                                },
                            },
                            None => {
                                let str_ty = self.alloc_plain(Type::String);
                                if let Err(e) = self.unify_here(index_ty, str_ty) {
                                    return Err(e);
                                }
                                Ok(self.alloc_plain(Type::Any))
                            },
                        }
                    },
                    Type::Var(_) => {
                        let elem_ty = self.alloc_var();
                        let resolved_idx = self.find(index_ty);
                        let is_number = match &self.types[resolved_idx.0] {
                            Type::Number => true,
                            _ => false,
                        };
                        if is_number {
                            let arr_ty = self.alloc_type(Type::Array(elem_ty));
                            match self.unify_here(left_ty, arr_ty) {
                                Ok(()) => Ok(elem_ty),
                                Err(e) => Err(e),
                            }
                        } else {
                            Ok(self.alloc_plain(Type::Any))
                        }
                    },
                    Type::Tuple(elements) => {
                        proof {
                            assert forall|k: int| 0 <= k < elements@.len() implies self.valid(#[trigger] elements@[k]) by {
                                assert(child_indices(self.types@[resolved_left.0 as int])[k] == elements@[k]);
                            }
                        }
                        let num_ty = self.alloc_plain(Type::Number);
                        if let Err(e) = self.unify_here(index_ty, num_ty) {
                            return Err(e);
                        }
                        match unwrap_loc(index) {
                            Expression::Number(text) => {
                                let i = number_text_index(text);
                                if i < elements.len() {
                                    Ok(elements[i])
                                } else {
                                    self.fail(join3("Tuple index ", decimal_string(i).as_str(), " out of bounds"))
                                }
                            },
                            _ => Ok(self.alloc_plain(Type::Any)),
                        }
                    },
                    Type::Any => Ok(self.alloc_plain(Type::Any)),
                    _ => {
                        let ty_str = self.type_to_string(resolved_left);
                        self.fail(join3("Index operator not supported on type '", ty_str.as_str(), "'"))
                    },
                }
            },
            _ => Ok(self.alloc_plain(Type::Any)),
        }
    }

    /// `left[index] = value` (and `left.name = value`).
    fn check_index_assign(&mut self, expr: &Expression, env: EnvIdx) -> (r: Result<TypeIdx, Diagnostic>)
        requires
            old(self).wf(),
            old(self).valid_env(env),
        ensures
            r is Ok ==> final(self).return_type() == old(self).return_type(),
            final(self).checked(old(self)),
            r matches Ok(t) ==> final(self).valid(t),
            r matches Ok(t) ==> (expr matches Expression::IndexAssign { value, .. }
                ==> fits_form(final(self).type_store()[t.0 as int], **value)),
            expr matches Expression::IndexAssign { left, index, value } ==> (**left matches Expression::Identifier(n) ==> (
                **index matches Expression::Identifier(m) ==> (**value matches Expression::Identifier(w) ==> (
                old(self).lookup(env, n@) matches Some(e1) ==> (old(self).lookup(env, m@) is Some
                    && old(self).lookup(env, w@) is Some
                    && old(self).type_store()[old(self).root(e1.0).0 as int] is Any ==> r is Ok))))),
        decreases expr, 0nat,
    {
        match expr {
            Expression::IndexAssign { left, index, value } => {
                let left_ty = match self.check(left, env) {
                    Ok(t) => t,
                    Err(e) => { return Err(e); },
                };
                let index_ty = match self.check(index, env) {
                    Ok(t) => t,
                    Err(e) => { return Err(e); },
                };
                let val_ty = match self.check(value, env) {
                    Ok(t) => t,
                    Err(e) => { return Err(e); },
                };
                let ghost after_value = *self;
                let resolved_left = self.find_deep(left_ty);
                proof { assert(type_wf(self.types@[resolved_left.0 as int], self.types@.len())); }
                let res = match copy_type(&self.types[resolved_left.0]) {
                    Type::Array(elem_ty) => {
                        proof { assert(child_indices(self.types@[resolved_left.0 as int])[0] == elem_ty); }
                        let num_ty = self.alloc_plain(Type::Number);
                        if let Err(e) = self.unify_here(index_ty, num_ty) {
                            return Err(e);
                        }
                        match self.unify_here(elem_ty, val_ty) {
                            Ok(()) => Ok(val_ty),
                            Err(e) => Err(e),
                        }
                    },
                    Type::Hash(_) => {
                        match Self::static_key(index) {
                            Some(key) => {
                                self.record_insert(resolved_left, key, val_ty);
                                Ok(val_ty)
                            },
                            None => {
                                let str_ty = self.alloc_plain(Type::String);
                                match self.unify_here(index_ty, str_ty) {
                                    Ok(()) => Ok(val_ty),
                                    Err(e) => Err(e),
                                }
                            },
                        }
                    },
                    Type::Var(_) => {
                        let resolved_idx = self.find(index_ty);
                        let is_number = match &self.types[resolved_idx.0] {
                            Type::Number => true,
                            _ => false,
                        };
                        if is_number {
                            let arr_ty = self.alloc_type(Type::Array(val_ty));
                            if let Err(e) = self.unify_here(left_ty, arr_ty) {
                                return Err(e);
                            }
                        } else {
                            let mut fields: Vec<(String, TypeIdx)> = Vec::new();
                            match Self::static_key(index) {
                                Some(key) => { fields.push((key, val_ty)); },
                                None => {},
                            }
                            let hash_ty = self.alloc_type(Type::Hash(fields));
                            if let Err(e) = self.unify_here(left_ty, hash_ty) {
                                return Err(e);
                            }
                        }
                        Ok(val_ty)
                    },
                    Type::Tuple(_) => self.fail(owned("Tuples are immutable")),
                    Type::Any => Ok(val_ty),
                    _ => {
                        let ty_str = self.type_to_string(resolved_left);
                        self.fail(join3("Property assignment not supported on type '", ty_str.as_str(), "'"))
                    },
                };
                proof {
                    if res is Ok {
                        self.lemma_fits_kept(&after_value, val_ty, **value);
                    }
                }
                res
            },
            _ => Ok(self.alloc_plain(Type::Any)),
        }
    }

    /// Checks each case of a `match`: its pattern against the subject, its
    /// guard, and its body against the common result type.
    fn check_cases(&mut self, cases: &Vec<MatchCase>, subject_ty: TypeIdx, ret_ty: TypeIdx, env: EnvIdx)
        -> (r: Result<(), Diagnostic>)
        requires
            old(self).wf(),
            old(self).valid_env(env),
            old(self).valid(subject_ty),
            old(self).valid(ret_ty),
        ensures
            r is Ok ==> final(self).return_type() == old(self).return_type(),
            final(self).checked(old(self)),
            cases@.len() == 0 ==> r is Ok && *final(self) == *old(self),
        decreases cases, 3nat,
    {
        let ghost orig = *self;
        let mut i: usize = 0;
        while i < cases.len()
            invariant
                self.return_type() == old(self).return_type(),
                self.checked(&orig),
                *old(self) == orig,
                self.valid_env(env),
                self.valid(subject_ty),
                self.valid(ret_ty),
                i <= cases@.len(),
                i == 0 ==> *self == orig,
            decreases cases@.len() - i,
        {
            let case_env = self.new_enclosed_env(env);
            if let Err(e) = self.check_pattern(&cases[i].pattern, subject_ty, case_env) {
                return Err(e);
            }
            if let Some(guard_expr) = &cases[i].guard {
                if let Err(e) = self.check(guard_expr, case_env) {
                    return Err(e);
                }
            }
            let body_ty = match self.check(&cases[i].body, case_env) {
                Ok(t) => t,
                Err(e) => { return Err(e); },
            };
            if let Err(e) = self.unify_here(body_ty, ret_ty) {
                return Err(e);
            }
            i += 1;
        }
        Ok(())
    }
}

} // verus!
