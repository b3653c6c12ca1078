//! Kal types, their text, and the operations on them that the checker uses:
//! substitution of type parameters, replacement of `Self`, and matching.

use vstd::prelude::*;

use crate::text::{join3, owned};
use crate::Error;

verus! {

/// A Kal type.
#[derive(Debug, PartialEq, Eq)]
pub enum Type {
    Int,
    String,
    Unit,
    Array(Box<Type>),
    Parameter(String),
    TraitSelf,
}

/// The mathematical value of a Kal type.
pub enum Ty {
    Int,
    String,
    Unit,
    Array(Box<Ty>),
    Parameter(Seq<char>),
    TraitSelf,
}

impl View for Type {
    type V = Ty;

    open spec fn view(&self) -> Ty
        decreases self,
    {
        match self {
            Type::Int => Ty::Int,
            Type::String => Ty::String,
            Type::Unit => Ty::Unit,
            Type::Array(element) => Ty::Array(Box::new((**element).view())),
            Type::Parameter(name) => Ty::Parameter(name@),
            Type::TraitSelf => Ty::TraitSelf,
        }
    }
}

/// The values of a sequence of types.
pub open spec fn tys(v: Seq<Type>) -> Seq<Ty> {
    Seq::new(v.len(), |i: int| v[i]@)
}

/// How a type is written in Kal source and in diagnostics.
pub open spec fn type_text(t: Ty) -> Seq<char>
    decreases t,
{
    match t {
        Ty::Int => "Int"@,
        Ty::String => "String"@,
        Ty::Unit => "Unit"@,
        Ty::Array(element) => "(Array "@ + type_text(*element) + ")"@,
        Ty::Parameter(name) => name,
        Ty::TraitSelf => "Self"@,
    }
}

/// Whether a type mentions neither a type parameter nor `Self`.
pub open spec fn is_concrete(t: Ty) -> bool
    decreases t,
{
    match t {
        Ty::Array(element) => is_concrete(*element),
        Ty::Parameter(_) => false,
        Ty::TraitSelf => false,
        _ => true,
    }
}

/// Whether every type parameter that `t` mentions is in `scope`, and `t` mentions
/// `Self` only where `allow_self` holds.
pub open spec fn is_scoped(t: Ty, scope: Seq<Seq<char>>, allow_self: bool) -> bool
    decreases t,
{
    match t {
        Ty::Array(element) => is_scoped(*element, scope, allow_self),
        Ty::Parameter(name) => scope.contains(name),
        Ty::TraitSelf => allow_self,
        _ => true,
    }
}

impl Type {
    /// A copy of this type.
    pub fn duplicate(&self) -> (r: Type)
        ensures
            r@ == self@,
        decreases self,
    {
        match self {
            Type::Int => Type::Int,
            Type::String => Type::String,
            Type::Unit => Type::Unit,
            Type::Array(element) => Type::Array(Box::new(element.duplicate())),
            Type::Parameter(name) => Type::Parameter(name.clone()),
            Type::TraitSelf => Type::TraitSelf,
        }
    }

    /// Whether two types are the same.
    pub fn same(&self, other: &Type) -> (r: bool)
        ensures
            r == (self@ == other@),
        decreases self,
    {
        match (self, other) {
            (Type::Int, Type::Int) => true,
            (Type::String, Type::String) => true,
            (Type::Unit, Type::Unit) => true,
            (Type::TraitSelf, Type::TraitSelf) => true,
            (Type::Parameter(a), Type::Parameter(b)) => *a == *b,
            (Type::Array(a), Type::Array(b)) => {
                let r = a.same(b);
                proof {
                    if !r {
                        assert((**a)@ != (**b)@);
                        assert(self@->Array_0 != other@->Array_0);
                    }
                }
                r
            },
            _ => false,
        }
    }

    /// How this type is written.
    pub fn text(&self) -> (r: String)
        ensures
            r@ == type_text(self@),
        decreases self,
    {
        match self {
            Type::Int => owned("Int"),
            Type::String => owned("String"),
            Type::Unit => owned("Unit"),
            Type::Array(element) => {
                let inner = element.text();
                join3("(Array ", inner.as_str(), ")")
            },
            Type::Parameter(name) => name.clone(),
            Type::TraitSelf => owned("Self"),
        }
    }
}

/// Copies a list of types.
pub fn duplicate_types(v: &Vec<Type>) -> (r: Vec<Type>)
    ensures
        tys(r@) == tys(v@),
{
    let mut r: Vec<Type> = Vec::new();
    let mut i: usize = 0;
    while i < v.len()
        invariant
            i <= v@.len(),
            r@.len() == i,
            forall|j: int| 0 <= j < i ==> #[trigger] r@[j]@ == v@[j]@,
        decreases v@.len() - i,
    {
        r.push(v[i].duplicate());
        i += 1;
    }
    assert(tys(r@) =~= tys(v@));
    r
}

/// Whether two lists of types are the same.
pub fn same_types(a: &Vec<Type>, b: &Vec<Type>) -> (r: bool)
    ensures
        r == (tys(a@) == tys(b@)),
{
    if a.len() != b.len() {
        assert(tys(a@).len() != tys(b@).len());
        return false;
    }
    let mut i: usize = 0;
    while i < a.len()
        invariant
            a@.len() == b@.len(),
            i <= a@.len(),
            forall|j: int| 0 <= j < i ==> a@[j]@ == b@[j]@,
        decreases a@.len() - i,
    {
        if !a[i].same(&b[i]) {
            assert(tys(a@)[i as int] != tys(b@)[i as int]);
            return false;
        }
        i += 1;
    }
    assert(tys(a@) =~= tys(b@));
    true
}

// ---------------------------------------------------------------------------
// Substitutions
// ---------------------------------------------------------------------------

/// Bindings of type parameters to types, the first binding of a name counting.
pub type Substitution = Vec<(String, Type)>;

/// The value of a substitution.
pub open spec fn bindings(v: Seq<(String, Type)>) -> Seq<(Seq<char>, Ty)> {
    Seq::new(v.len(), |i: int| (v[i].0@, v[i].1@))
}

/// The type bound to `name`, if any.
pub open spec fn bound(s: Seq<(Seq<char>, Ty)>, name: Seq<char>) -> Option<Ty>
    decreases s.len(),
{
    if s.len() == 0 {
        None
    } else if s[0].0 == name {
        Some(s[0].1)
    } else {
        bound(s.drop_first(), name)
    }
}

/// The first binding of a name is the one found.
proof fn lemma_bound_found(s: Seq<(Seq<char>, Ty)>, i: int)
    requires
        0 <= i < s.len(),
        forall|j: int| 0 <= j < i ==> s[j].0 != s[i].0,
    ensures
        bound(s, s[i].0) == Some(s[i].1),
    decreases i,
{
    if i > 0 {
        assert forall|j: int| 0 <= j < i - 1 implies #[trigger] s.drop_first()[j].0 != s.drop_first()[i - 1].0 by {
            assert(s.drop_first()[j] == s[j + 1]);
        }
        lemma_bound_found(s.drop_first(), i - 1);
    }
}

/// A name that nothing binds is unbound.
proof fn lemma_bound_absent(s: Seq<(Seq<char>, Ty)>, name: Seq<char>)
    requires
        forall|j: int| 0 <= j < s.len() ==> s[j].0 != name,
    ensures
        bound(s, name) is None,
    decreases s.len(),
{
    if s.len() > 0 {
        assert forall|j: int| 0 <= j < s.drop_first().len() implies s.drop_first()[j].0 != name by {
            assert(s.drop_first()[j] == s[j + 1]);
        }
        lemma_bound_absent(s.drop_first(), name);
    }
}

/// The binding of `name` in `s`, the first that there is.
pub fn lookup<'a>(s: &'a Substitution, name: &str) -> (r: Option<&'a Type>)
    ensures
        match bound(bindings(s@), name@) {
            Some(t) => r matches Some(found) && found@ == t,
            None => r is None,
        },
{
    let mut i: usize = 0;
    while i < s.len()
        invariant
            i <= s@.len(),
            forall|j: int| 0 <= j < i ==> s@[j].0@ != name@,
        decreases s@.len() - i,
    {
        if crate::text::same_text(s[i].0.as_str(), name) {
            proof {
                lemma_bound_found(bindings(s@), i as int);
            }
            return Some(&s[i].1);
        }
        i += 1;
    }
    proof {
        lemma_bound_absent(bindings(s@), name@);
    }
    None
}

/// `t` with each bound type parameter replaced by its binding.
pub open spec fn substituted(t: Ty, s: Seq<(Seq<char>, Ty)>) -> Ty
    decreases t,
{
    match t {
        Ty::Parameter(name) => match bound(s, name) {
            Some(u) => u,
            None => t,
        },
        Ty::Array(element) => Ty::Array(Box::new(substituted(*element, s))),
        _ => t,
    }
}

/// Replaces the type parameters of `ty` that `substitutions` binds.
pub fn substitute(ty: &Type, substitutions: &Substitution) -> (r: Type)
    ensures
        r@ == substituted(ty@, bindings(substitutions@)),
    decreases ty,
{
    match ty {
        Type::Parameter(name) => match lookup(substitutions, name.as_str()) {
            Some(t) => t.duplicate(),
            None => ty.duplicate(),
        },
        Type::Array(element) => Type::Array(Box::new(substitute(element, substitutions))),
        _ => ty.duplicate(),
    }
}

/// `t` with `Self` replaced by `r`.
pub open spec fn self_replaced(t: Ty, r: Ty) -> Ty
    decreases t,
{
    match t {
        Ty::TraitSelf => r,
        Ty::Array(element) => Ty::Array(Box::new(self_replaced(*element, r))),
        _ => t,
    }
}

/// Replaces `Self` in `ty` by `replacement`.
pub fn replace_self(ty: &Type, replacement: &Type) -> (r: Type)
    ensures
        r@ == self_replaced(ty@, replacement@),
    decreases ty,
{
    match ty {
        Type::TraitSelf => replacement.duplicate(),
        Type::Array(element) => Type::Array(Box::new(replace_self(element, replacement))),
        _ => ty.duplicate(),
    }
}

/// Unification of a parameter type `expected` with an argument type `actual`:
/// the substitution extended with the bindings that make them equal, or failure.
pub open spec fn unified(expected: Ty, actual: Ty, s: Seq<(Seq<char>, Ty)>) -> Option<Seq<(Seq<char>, Ty)>>
    decreases expected,
{
    match expected {
        Ty::Parameter(name) => match bound(s, name) {
            Some(previous) => if previous == actual {
                Some(s)
            } else {
                None
            },
            None => Some(s.push((name, actual))),
        },
        Ty::Array(e) => match actual {
            Ty::Array(a) => unified(*e, *a, s),
            _ => None,
        },
        _ => if expected == actual {
            Some(s)
        } else {
            None
        },
    }
}

/// Unifies `expected` with `actual`, extending `substitutions`; on failure the
/// substitution is left as it was.
pub fn unify(expected: &Type, actual: &Type, substitutions: &mut Substitution) -> (r: bool)
    ensures
        match unified(expected@, actual@, bindings(old(substitutions)@)) {
            Some(s) => r && bindings(final(substitutions)@) == s,
            None => !r,
        },
        !r ==> final(substitutions)@ == old(substitutions)@,
    decreases expected,
{
    match expected {
        Type::Parameter(name) => {
            let previous = match lookup(substitutions, name.as_str()) {
                Some(p) => Some(p.duplicate()),
                None => None,
            };
            match previous {
                Some(p) => p.same(actual),
                None => {
                    let ghost before = bindings(substitutions@);
                    substitutions.push((name.clone(), actual.duplicate()));
                    assert(bindings(substitutions@) =~= before.push((name@, actual@)));
                    true
                },
            }
        },
        Type::Array(e) => match actual {
            Type::Array(a) => unify(e, a, substitutions),
            _ => false,
        },
        _ => expected.same(actual),
    }
}

/// Matching of a trait-method parameter type `pattern` against an argument type:
/// the type that `Self` stands for, once known, or failure.
pub open spec fn self_matched(pattern: Ty, actual: Ty, self_type: Option<Ty>) -> Option<Option<Ty>>
    decreases pattern,
{
    match pattern {
        Ty::TraitSelf => match self_type {
            Some(previous) => if previous == actual {
                Some(self_type)
            } else {
                None
            },
            None => Some(Some(actual)),
        },
        Ty::Array(p) => match actual {
            Ty::Array(a) => self_matched(*p, *a, self_type),
            _ => None,
        },
        _ => if pattern == actual {
            Some(self_type)
        } else {
            None
        },
    }
}

/// Matches `pattern` against `actual`, recording what `Self` stands for.
pub fn match_self_type(pattern: &Type, actual: &Type, self_type: &mut Option<Type>) -> (r: bool)
    ensures
        match self_matched(pattern@, actual@, match *old(self_type) { Some(t) => Some(t@), None => None }) {
            Some(found) => r && found == match *final(self_type) { Some(t) => Some(t@), None => None },
            None => !r,
        },
    decreases pattern,
{
    match pattern {
        Type::TraitSelf => {
            let matched = match self_type {
                Some(previous) => Some(previous.same(actual)),
                None => None,
            };
            match matched {
                Some(same) => same,
                None => {
                    *self_type = Some(actual.duplicate());
                    true
                },
            }
        },
        Type::Array(p) => match actual {
            Type::Array(a) => match_self_type(p, a, self_type),
            _ => false,
        },
        _ => pattern.same(actual),
    }
}

/// Whether `short` is a prefix of `long`.
pub open spec fn is_prefix<T>(short: Seq<T>, long: Seq<T>) -> bool {
    short.len() <= long.len() && forall|i: int| 0 <= i < short.len() ==> short[i] == long[i]
}

/// Whether every type that `s` binds is concrete.
pub open spec fn values_concrete(s: Seq<(Seq<char>, Ty)>) -> bool {
    forall|i: int| 0 <= i < s.len() ==> is_concrete(#[trigger] s[i].1)
}

/// A type scoped in no type parameters and without `Self` is concrete.
pub proof fn lemma_unscoped_concrete(t: Ty)
    requires
        is_scoped(t, seq![], false),
    ensures
        is_concrete(t),
    decreases t,
{
    if let Ty::Array(e) = t {
        lemma_unscoped_concrete(*e);
    }
}

/// Substituting nothing changes nothing.
pub proof fn lemma_substituted_nothing(t: Ty)
    ensures
        substituted(t, seq![]) == t,
    decreases t,
{
    if let Ty::Array(e) = t {
        lemma_substituted_nothing(*e);
    }
}

/// Substitutions that agree on the type parameters in scope agree on a scoped type.
pub proof fn lemma_substituted_agree(t: Ty, scope: Seq<Seq<char>>, s1: Seq<(Seq<char>, Ty)>, s2: Seq<(Seq<char>, Ty)>)
    requires
        is_scoped(t, scope, false),
        forall|k: int| 0 <= k < scope.len() ==> bound(s1, #[trigger] scope[k]) == bound(s2, scope[k]),
    ensures
        substituted(t, s1) == substituted(t, s2),
    decreases t,
{
    match t {
        Ty::Array(e) => lemma_substituted_agree(*e, scope, s1, s2),
        Ty::Parameter(n) => {
            let k = choose|k: int| 0 <= k < scope.len() && scope[k] == n;
            assert(bound(s1, scope[k]) == bound(s2, scope[k]));
        },
        _ => {},
    }
}

/// A scoped type whose type parameters are all bound to concrete types becomes concrete.
pub proof fn lemma_substituted_concrete(t: Ty, scope: Seq<Seq<char>>, s: Seq<(Seq<char>, Ty)>)
    requires
        is_scoped(t, scope, false),
        forall|k: int| 0 <= k < scope.len() ==> (bound(s, #[trigger] scope[k]) matches Some(u) && is_concrete(u)),
    ensures
        is_concrete(substituted(t, s)),
    decreases t,
{
    match t {
        Ty::Array(e) => lemma_substituted_concrete(*e, scope, s),
        Ty::Parameter(n) => {
            let k = choose|k: int| 0 <= k < scope.len() && scope[k] == n;
            assert(bound(s, scope[k]) matches Some(u) && is_concrete(u));
        },
        _ => {},
    }
}

/// A binding survives the extension of its substitution.
pub proof fn lemma_bound_extended(s: Seq<(Seq<char>, Ty)>, s2: Seq<(Seq<char>, Ty)>, n: Seq<char>)
    requires
        is_prefix(s, s2),
        bound(s, n) is Some,
    ensures
        bound(s2, n) == bound(s, n),
    decreases s.len(),
{
    if s[0].0 != n {
        assert(is_prefix(s.drop_first(), s2.drop_first())) by {
            assert forall|i: int| 0 <= i < s.drop_first().len() implies s.drop_first()[i] == s2.drop_first()[i] by {
                assert(s.drop_first()[i] == s[i + 1]);
                assert(s2.drop_first()[i] == s2[i + 1]);
            }
        }
        lemma_bound_extended(s.drop_first(), s2.drop_first(), n);
    } else {
        assert(s2[0] == s[0]);
    }
}

/// A binding added for an unbound name is found.
pub proof fn lemma_bound_pushed(s: Seq<(Seq<char>, Ty)>, x: (Seq<char>, Ty), n: Seq<char>)
    requires
        bound(s, n) is None,
    ensures
        bound(s.push(x), n) == if x.0 == n { Some(x.1) } else { None::<Ty> },
    decreases s.len(),
{
    let p = s.push(x);
    if s.len() > 0 {
        assert(s[0].0 != n);
        assert(p[0] == s[0]);
        assert(p.drop_first() =~= s.drop_first().push(x));
        assert(bound(p, n) == bound(p.drop_first(), n));
        lemma_bound_pushed(s.drop_first(), x, n);
    } else {
        assert(p[0] == x);
        assert(p.drop_first() =~= Seq::<(Seq<char>, Ty)>::empty());
        assert(bound(p.drop_first(), n) is None);
    }
}

/// The binding of a name is one of the substitution's values.
pub proof fn lemma_bound_value(s: Seq<(Seq<char>, Ty)>, n: Seq<char>)
    ensures
        bound(s, n) matches Some(u) ==> exists|i: int| 0 <= i < s.len() && s[i].1 == u,
    decreases s.len(),
{
    if s.len() > 0 && s[0].0 != n {
        lemma_bound_value(s.drop_first(), n);
        if let Some(u) = bound(s, n) {
            let i = choose|i: int| 0 <= i < s.drop_first().len() && s.drop_first()[i].1 == u;
            assert(s[i + 1].1 == u);
        }
    } else if s.len() > 0 {
        assert(s[0].1 == bound(s, n)->Some_0);
    }
}

/// Substitution by an extension of a substitution that already made a type concrete
/// gives the same type.
pub proof fn lemma_substituted_extended(t: Ty, s: Seq<(Seq<char>, Ty)>, s2: Seq<(Seq<char>, Ty)>)
    requires
        is_prefix(s, s2),
        is_concrete(substituted(t, s)),
    ensures
        substituted(t, s2) == substituted(t, s),
    decreases t,
{
    match t {
        Ty::Array(e) => lemma_substituted_extended(*e, s, s2),
        Ty::Parameter(n) => {
            if bound(s, n) is Some {
                lemma_bound_extended(s, s2, n);
            }
        },
        _ => {},
    }
}

/// Unification with a concrete argument type extends the substitution with concrete
/// bindings, and makes the parameter type equal to the argument type.
pub proof fn lemma_unified(e: Ty, a: Ty, s: Seq<(Seq<char>, Ty)>)
    requires
        is_concrete(a),
        values_concrete(s),
        unified(e, a, s) is Some,
    ensures
        is_prefix(s, unified(e, a, s)->Some_0),
        values_concrete(unified(e, a, s)->Some_0),
        substituted(e, unified(e, a, s)->Some_0) == a,
    decreases e,
{
    match e {
        Ty::Parameter(n) => {
            if bound(s, n) is None {
                lemma_bound_pushed(s, (n, a), n);
                assert(values_concrete(s.push((n, a)))) by {
                    assert forall|i: int| 0 <= i < s.push((n, a)).len() implies is_concrete(#[trigger] s.push((n, a))[i].1) by {
                        if i < s.len() {
                            assert(s.push((n, a))[i] == s[i]);
                        }
                    }
                }
            }
        },
        Ty::Array(inner) => {
            if let Ty::Array(ai) = a {
                lemma_unified(*inner, *ai, s);
            }
        },
        _ => {},
    }
}

/// An error with a fixed message.
pub fn error(message: &str) -> (e: Error)
    ensures
        e@ == message@,
{
    Error::new(owned(message))
}

} // verus!
