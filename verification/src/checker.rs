//! The checker: registers declarations, checks generic functions against their
//! requirements, and lowers function bodies into a typed program, specializing
//! generic functions for the concrete types they are called with.

use vstd::prelude::*;
use vstd::utf8::encode_utf8;

use crate::declarations::{
    decl_scoped, decls_scoped, first_symbol, impl_scoped, item, method_names, param_types,
    parse_declarations, program_declarations, symbol, symbol_of, views, Constraint, Declarations,
    Decls, FunctionDecl, FunctionDefinition, ImplDecl, ImplDefinition, MethodDecl, MethodSignature,
    Param, Parameter, Requirement, TraitDecl, TraitDefinition,
};
use crate::program::{
    lemma_well_typed_grows, signatures, typeds, well_formed, well_typed, ExpressionKind,
    Function, FunctionModel, Kind, Program, ProgramModel, Signature, Typed, TypedExpression,
};
use crate::syntax::{Expression, Form};
use crate::text::{decimal, decimal_text, join2, join3, join5, join7, owned, same_text};
use crate::types::{
    bindings, bound, duplicate_types, error, is_concrete, is_prefix, lemma_bound_value,
    lemma_substituted_concrete, lemma_unscoped_concrete, lookup, match_self_type, replace_self,
    same_types, self_matched, self_replaced, substitute, substituted, type_text, tys, unified, unify,
    values_concrete, Substitution, Ty, Type,
};
use crate::Error;

verus! {

// ---------------------------------------------------------------------------
// State
// ---------------------------------------------------------------------------

/// A non-generic function and the index of its program function.
pub struct ConcreteDefinition {
    pub definition: FunctionDefinition,
    pub function: usize,
}

/// The value of a registered non-generic function.
pub struct ConcreteDecl {
    pub definition: FunctionDecl,
    pub function: int,
}

impl View for ConcreteDefinition {
    type V = ConcreteDecl;

    open spec fn view(&self) -> ConcreteDecl {
        ConcreteDecl { definition: self.definition@, function: self.function as int }
    }
}

/// A method of a trait implementation and the index of its program function.
pub struct ImplMethod {
    pub trait_name: String,
    pub for_type: Type,
    pub signature: MethodSignature,
    pub definition: FunctionDefinition,
    pub function: usize,
}

/// The value of a registered implemented method.
pub struct ImplMethodDecl {
    pub trait_name: Seq<char>,
    pub for_type: Ty,
    pub signature: MethodDecl,
    pub definition: FunctionDecl,
    pub function: int,
}

impl View for ImplMethod {
    type V = ImplMethodDecl;

    open spec fn view(&self) -> ImplMethodDecl {
        ImplMethodDecl {
            trait_name: self.trait_name@,
            for_type: self.for_type@,
            signature: self.signature@,
            definition: self.definition@,
            function: self.function as int,
        }
    }
}

/// The declarations that lowering consults: traits, non-generic functions, generic
/// functions and implemented methods, each in source order.
pub struct Env {
    pub traits: Seq<TraitDecl>,
    pub concrete: Seq<ConcreteDecl>,
    pub generic: Seq<FunctionDecl>,
    pub impls: Seq<ImplMethodDecl>,
}

/// A program function whose signature is fixed and whose body is lowered later.
pub struct PendingFunction {
    pub symbol: String,
    pub parameters: Vec<Type>,
    pub return_type: Type,
    pub body: Option<TypedExpression>,
}

/// The value of a reserved program function.
pub struct PendingDecl {
    pub symbol: Seq<char>,
    pub parameters: Seq<Ty>,
    pub return_type: Ty,
    pub body: Option<Typed>,
}

impl View for PendingFunction {
    type V = PendingDecl;

    open spec fn view(&self) -> PendingDecl {
        PendingDecl {
            symbol: self.symbol@,
            parameters: tys(self.parameters@),
            return_type: self.return_type@,
            body: match &self.body {
                Some(b) => Some(b@),
                None => None,
            },
        }
    }
}

/// A generic function specialized for type arguments, and its program function.
/// `substitution` is the binding of type parameters that the specialization was
/// lowered with.
pub struct Specialization {
    pub name: String,
    pub type_arguments: Vec<Type>,
    pub function: usize,
    pub substitution: Ghost<Seq<(Seq<char>, Ty)>>,
}

/// The value of a specialization.
pub struct SpecializationDecl {
    pub name: Seq<char>,
    pub type_arguments: Seq<Ty>,
    pub function: int,
    pub substitution: Seq<(Seq<char>, Ty)>,
}

impl View for Specialization {
    type V = SpecializationDecl;

    open spec fn view(&self) -> SpecializationDecl {
        SpecializationDecl {
            name: self.name@,
            type_arguments: tys(self.type_arguments@),
            function: self.function as int,
            substitution: self.substitution@,
        }
    }
}

/// The checker's state.
struct Analyzer {
    traits: Vec<TraitDefinition>,
    concrete_functions: Vec<ConcreteDefinition>,
    generic_functions: Vec<FunctionDefinition>,
    impl_methods: Vec<ImplMethod>,
    pending_functions: Vec<PendingFunction>,
    specializations: Vec<Specialization>,
    strings: Vec<Vec<u8>>,
}

impl Analyzer {
    spec fn env(&self) -> Env {
        Env {
            traits: views(self.traits@),
            concrete: views(self.concrete_functions@),
            generic: views(self.generic_functions@),
            impls: views(self.impl_methods@),
        }
    }
}

// ---------------------------------------------------------------------------
// Lookups
// ---------------------------------------------------------------------------

/// The first index at or after `k` at which `names` holds `name`.
pub open spec fn index_from(names: Seq<Seq<char>>, name: Seq<char>, k: int) -> Option<int>
    decreases names.len() - k,
{
    if k < 0 || k >= names.len() {
        None
    } else if names[k] == name {
        Some(k)
    } else {
        index_from(names, name, k + 1)
    }
}

/// The first index at which `names` holds `name`.
pub open spec fn index_of(names: Seq<Seq<char>>, name: Seq<char>) -> Option<int> {
    index_from(names, name, 0)
}

/// What the search from index `k` finds: the first match at or after `k`, or none.
pub proof fn lemma_index_from(names: Seq<Seq<char>>, name: Seq<char>, k: int)
    requires
        0 <= k <= names.len(),
    ensures
        match index_from(names, name, k) {
            Some(i) => k <= i < names.len() && names[i] == name && forall|j: int| k <= j < i ==> names[j] != name,
            None => forall|j: int| k <= j < names.len() ==> names[j] != name,
        },
    decreases names.len() - k,
{
    if k < names.len() && names[k] != name {
        lemma_index_from(names, name, k + 1);
    }
}

/// The first index that holds `name` is what the search finds.
pub proof fn lemma_index_of_found(names: Seq<Seq<char>>, name: Seq<char>, i: int)
    requires
        0 <= i < names.len(),
        names[i] == name,
        forall|j: int| 0 <= j < i ==> names[j] != name,
    ensures
        index_of(names, name) == Some(i),
{
    lemma_index_from(names, name, 0);
    match index_of(names, name) {
        Some(k) => {
            if k < i {
            } else if k > i {
            }
        },
        None => {},
    }
}

/// A name that nothing holds is not found.
pub proof fn lemma_index_of_absent(names: Seq<Seq<char>>, name: Seq<char>)
    requires
        forall|j: int| 0 <= j < names.len() ==> names[j] != name,
    ensures
        index_of(names, name) is None,
{
    lemma_index_from(names, name, 0);
}

/// The names of the traits.
pub open spec fn trait_names(ts: Seq<TraitDecl>) -> Seq<Seq<char>> {
    Seq::new(ts.len(), |i: int| ts[i].name)
}

/// The names of the non-generic functions.
pub open spec fn concrete_names(cs: Seq<ConcreteDecl>) -> Seq<Seq<char>> {
    Seq::new(cs.len(), |i: int| cs[i].definition.name)
}

/// The names of function definitions.
pub open spec fn function_names(fs: Seq<FunctionDecl>) -> Seq<Seq<char>> {
    Seq::new(fs.len(), |i: int| fs[i].name)
}

/// Whether `t` is implemented for `ty`.
pub open spec fn implemented(impls: Seq<ImplMethodDecl>, t: Seq<char>, ty: Ty) -> bool {
    exists|i: int| 0 <= i < impls.len() && impls[i].trait_name == t && impls[i].for_type == ty
}

/// Whether the requirements `cs` include `(implements parameter t)`.
pub open spec fn required(cs: Seq<Requirement>, parameter: Seq<char>, t: Seq<char>) -> bool {
    exists|i: int| 0 <= i < cs.len() && cs[i].parameter == parameter && cs[i].trait_name == t
}

// ---------------------------------------------------------------------------
// Calls
// ---------------------------------------------------------------------------

/// The diagnostic for arguments that do not fit a function.
pub open spec fn mismatched_arguments(name: Seq<char>) -> Seq<char> {
    "arguments to `"@ + name + "` do not match its parameter types"@
}

/// The check that call arguments have exactly the parameter types.
pub open spec fn arguments_fit(name: Seq<char>, actual: Seq<Ty>, expected: Seq<Ty>) -> Result<(), Seq<char>> {
    if actual == expected {
        Ok(())
    } else {
        Err(mismatched_arguments(name))
    }
}

/// Unification of parameter types `ps[k..]` with argument types `args[k..]`.
pub open spec fn unified_from(ps: Seq<Param>, args: Seq<Ty>, k: int, s: Seq<(Seq<char>, Ty)>) -> Option<Seq<(Seq<char>, Ty)>>
    decreases ps.len() - k,
{
    if k < 0 || k >= ps.len() || k >= args.len() {
        Some(s)
    } else {
        match unified(ps[k].ty, args[k], s) {
            None => None,
            Some(s2) => unified_from(ps, args, k + 1, s2),
        }
    }
}

/// The first type parameter in `tps[k..]` that `s` leaves unbound.
pub open spec fn first_unbound(tps: Seq<Seq<char>>, s: Seq<(Seq<char>, Ty)>, k: int) -> Option<Seq<char>>
    decreases tps.len() - k,
{
    if k < 0 || k >= tps.len() {
        None
    } else if bound(s, tps[k]) is None {
        Some(tps[k])
    } else {
        first_unbound(tps, s, k + 1)
    }
}

/// The diagnostic for a type parameter that the arguments leave open.
pub open spec fn undetermined(parameter: Seq<char>, function: Seq<char>) -> Seq<char> {
    "could not determine type parameter `"@ + parameter + "` for `"@ + function + "`"@
}

/// The type arguments of a call of the generic function `g` with argument types `args`,
/// as a substitution.
pub open spec fn inferred(g: FunctionDecl, args: Seq<Ty>) -> Result<Seq<(Seq<char>, Ty)>, Seq<char>> {
    if g.parameters.len() != args.len() {
        Err(
            "function `"@ + g.name + "` expects "@ + decimal_text(g.parameters.len()) + " arguments, received "@
                + decimal_text(args.len()),
        )
    } else {
        match unified_from(g.parameters, args, 0, seq![]) {
            None => Err(mismatched_arguments(g.name)),
            Some(s) => match first_unbound(g.type_parameters, s, 0) {
                Some(p) => Err(undetermined(p, g.name)),
                None => Ok(s),
            },
        }
    }
}

/// The check of requirements `g.constraints[k..]` under the substitution `s`, in a
/// caller whose own requirements are `caller`.
pub open spec fn requirements_hold_from(impls: Seq<ImplMethodDecl>, g: FunctionDecl, s: Seq<(Seq<char>, Ty)>, caller: Seq<Requirement>, k: int) -> Result<(), Seq<char>>
    decreases g.constraints.len() - k,
{
    if k < 0 || k >= g.constraints.len() {
        Ok(())
    } else {
        let c = g.constraints[k];
        match bound(s, c.parameter) {
            None => Err(undetermined(c.parameter, g.name)),
            Some(ty) => {
                let satisfied = match ty {
                    Ty::Parameter(p) => required(caller, p, c.trait_name),
                    _ => implemented(impls, c.trait_name, ty),
                };
                if !satisfied {
                    Err(
                        "type `"@ + type_text(ty) + "` does not implement trait `"@ + c.trait_name
                            + "` required by `"@ + g.name + "`"@,
                    )
                } else {
                    requirements_hold_from(impls, g, s, caller, k + 1)
                }
            },
        }
    }
}

/// What `Self` stands for when a trait method with parameters `ps[k..]` is called with
/// argument types `args[k..]`, given what it stands for so far.
pub open spec fn self_from(ps: Seq<Param>, args: Seq<Ty>, k: int, st: Option<Ty>) -> Option<Option<Ty>>
    decreases ps.len() - k,
{
    if k < 0 || k >= ps.len() || k >= args.len() {
        Some(st)
    } else {
        match self_matched(ps[k].ty, args[k], st) {
            None => None,
            Some(st2) => self_from(ps, args, k + 1, st2),
        }
    }
}

/// The type that `Self` stands for in a call of a trait method with argument types `args`.
pub open spec fn trait_signature_match(m: MethodDecl, args: Seq<Ty>) -> Option<Ty> {
    if m.parameters.len() != args.len() {
        None
    } else {
        match self_from(m.parameters, args, 0, None) {
            Some(Some(t)) => Some(t),
            _ => None,
        }
    }
}

/// The return type of a call of method `m` of trait `t` with argument types `args`,
/// if the call is available: `Self` is determined and implements `t` (or, for a type
/// parameter, is required to).
pub open spec fn method_candidate(impls: Seq<ImplMethodDecl>, t: TraitDecl, m: MethodDecl, args: Seq<Ty>, cs: Seq<Requirement>) -> Option<Ty> {
    match trait_signature_match(m, args) {
        None => None,
        Some(self_type) => {
            let available = match self_type {
                Ty::Parameter(p) => required(cs, p, t.name),
                _ => implemented(impls, t.name, self_type),
            };
            if available {
                Some(self_replaced(m.return_type, self_type))
            } else {
                None
            }
        },
    }
}

/// The return types of the available trait methods named `name` among the methods
/// `t.methods[j..]`.
pub open spec fn method_candidates_from(impls: Seq<ImplMethodDecl>, t: TraitDecl, name: Seq<char>, args: Seq<Ty>, cs: Seq<Requirement>, j: int) -> Seq<Ty>
    decreases t.methods.len() - j,
{
    if j < 0 || j >= t.methods.len() {
        seq![]
    } else {
        let here = if t.methods[j].name == name {
            match method_candidate(impls, t, t.methods[j], args, cs) {
                Some(r) => seq![r],
                None => seq![],
            }
        } else {
            seq![]
        };
        here + method_candidates_from(impls, t, name, args, cs, j + 1)
    }
}

/// The return types of the available trait methods named `name` in the traits `ts[k..]`.
pub open spec fn trait_candidates_from(env: Env, name: Seq<char>, args: Seq<Ty>, cs: Seq<Requirement>, k: int) -> Seq<Ty>
    decreases env.traits.len() - k,
{
    if k < 0 || k >= env.traits.len() {
        seq![]
    } else {
        method_candidates_from(env.impls, env.traits[k], name, args, cs, 0) + trait_candidates_from(env, name, args, cs, k + 1)
    }
}

/// The diagnostic for a call that nothing accepts.
pub open spec fn no_callee(name: Seq<char>) -> Seq<char> {
    "no function or trait method `"@ + name + "` accepts the supplied argument types"@
}

/// The diagnostic for a call that several trait methods accept.
pub open spec fn ambiguous_call(name: Seq<char>) -> Seq<char> {
    "call to trait method `"@ + name + "` is ambiguous"@
}

/// The type of a call of `name` with argument types `args`, inside a generic function
/// with requirements `cs`: a non-generic function, else a generic one, else the one
/// trait method that accepts the arguments.
pub open spec fn call_type(env: Env, name: Seq<char>, args: Seq<Ty>, cs: Seq<Requirement>) -> Result<Ty, Seq<char>> {
    match index_of(concrete_names(env.concrete), name) {
        Some(i) => {
            let d = env.concrete[i].definition;
            match arguments_fit(name, args, param_types(d.parameters)) {
                Err(e) => Err(e),
                Ok(_) => Ok(d.return_type),
            }
        },
        None => match index_of(function_names(env.generic), name) {
            Some(i) => {
                let g = env.generic[i];
                match inferred(g, args) {
                    Err(e) => Err(e),
                    Ok(s) => match requirements_hold_from(env.impls, g, s, cs, 0) {
                        Err(e) => Err(e),
                        Ok(_) => Ok(substituted(g.return_type, s)),
                    },
                }
            },
            None => {
                let matches = trait_candidates_from(env, name, args, cs, 0);
                if matches.len() == 1 {
                    Ok(matches[0])
                } else if matches.len() == 0 {
                    Err(no_callee(name))
                } else {
                    Err(ambiguous_call(name))
                }
            },
        },
    }
}

// ---------------------------------------------------------------------------
// Checking generic functions
// ---------------------------------------------------------------------------

/// The type of an expression in a generic function whose parameters are `bindings` and
/// whose requirements are `cs`.
pub open spec fn form_type(env: Env, f: Form, bindings: Seq<(Seq<char>, Ty)>, cs: Seq<Requirement>) -> Result<Ty, Seq<char>>
    decreases f, 0int,
{
    match f {
        Form::Integer(_) => Ok(Ty::Int),
        Form::String(_) => Ok(Ty::String),
        Form::Symbol(name) => match bound(bindings, name) {
            Some(t) => Ok(t),
            None => Err("unknown name `"@ + name + "`"@),
        },
        Form::List(es) => match symbol_of(item(es, 0), "expression must begin with an operator"@) {
            Err(e) => Err(e),
            Ok(op) => if op == "do"@ {
                if es.len() == 1 {
                    Err("`do` requires at least one expression"@)
                } else {
                    sequence_type(env, es, 1, Ty::Unit, bindings, cs)
                }
            } else if op == "print"@ {
                if es.len() == 2 && es[1] is String {
                    Ok(Ty::Unit)
                } else {
                    Err("`print` requires exactly one string literal"@)
                }
            } else if op == "+"@ {
                if es.len() != 3 {
                    Err("`+` requires exactly two arguments"@)
                } else {
                    match form_type(env, es[1], bindings, cs) {
                        Err(e) => Err(e),
                        Ok(l) => match form_type(env, es[2], bindings, cs) {
                            Err(e) => Err(e),
                            Ok(r) => if l != Ty::Int || r != Ty::Int {
                                Err("`+` requires two `Int` arguments"@)
                            } else {
                                Ok(Ty::Int)
                            },
                        },
                    }
                }
            } else {
                match argument_types(env, es, 1, seq![], bindings, cs) {
                    Err(e) => Err(e),
                    Ok(args) => call_type(env, op, args, cs),
                }
            },
        },
    }
}

/// The type of the last of `es[k..]`, or `last` when there are none.
pub open spec fn sequence_type(env: Env, es: Seq<Form>, k: int, last: Ty, bindings: Seq<(Seq<char>, Ty)>, cs: Seq<Requirement>) -> Result<Ty, Seq<char>>
    decreases es, es.len() - k,
{
    if k < 0 || k >= es.len() {
        Ok(last)
    } else {
        match form_type(env, es[k], bindings, cs) {
            Err(e) => Err(e),
            Ok(t) => sequence_type(env, es, k + 1, t, bindings, cs),
        }
    }
}

/// The types of `es[k..]`, after `done`.
pub open spec fn argument_types(env: Env, es: Seq<Form>, k: int, done: Seq<Ty>, bindings: Seq<(Seq<char>, Ty)>, cs: Seq<Requirement>) -> Result<Seq<Ty>, Seq<char>>
    decreases es, es.len() - k,
{
    if k < 0 || k >= es.len() {
        Ok(done)
    } else {
        match form_type(env, es[k], bindings, cs) {
            Err(e) => Err(e),
            Ok(t) => argument_types(env, es, k + 1, done.push(t), bindings, cs),
        }
    }
}

/// The names and types of a function's parameters.
pub open spec fn parameter_bindings(ps: Seq<Param>) -> Seq<(Seq<char>, Ty)> {
    Seq::new(ps.len(), |i: int| (ps[i].name, ps[i].ty))
}

/// The check of a generic function: its requirements name known traits, and its body
/// has its return type.
pub open spec fn generic_check(env: Env, g: FunctionDecl) -> Result<(), Seq<char>> {
    match unknown_requirement_from(env, g, 0) {
        Some(t) => Err("unknown trait `"@ + t + "` in requirements for `"@ + g.name + "`"@),
        None => match form_type(env, g.body, parameter_bindings(g.parameters), g.constraints) {
            Err(e) => Err(e),
            Ok(t) => if t != g.return_type {
                Err(
                    "function `"@ + g.name + "` body has type `"@ + type_text(t) + "`, expected `"@
                        + type_text(g.return_type) + "`"@,
                )
            } else {
                Ok(())
            },
        },
    }
}

/// The first trait named by a requirement in `g.constraints[k..]` that is not declared.
pub open spec fn unknown_requirement_from(env: Env, g: FunctionDecl, k: int) -> Option<Seq<char>>
    decreases g.constraints.len() - k,
{
    if k < 0 || k >= g.constraints.len() {
        None
    } else if index_of(trait_names(env.traits), g.constraints[k].trait_name) is None {
        Some(g.constraints[k].trait_name)
    } else {
        unknown_requirement_from(env, g, k + 1)
    }
}

/// The check of the generic functions `gs[k..]`, in order.
pub open spec fn generics_check_from(env: Env, k: int) -> Result<(), Seq<char>>
    decreases env.generic.len() - k,
{
    if k < 0 || k >= env.generic.len() {
        Ok(())
    } else {
        match generic_check(env, env.generic[k]) {
            Err(e) => Err(e),
            Ok(_) => generics_check_from(env, k + 1),
        }
    }
}

// ---------------------------------------------------------------------------
// Executable checks
// ---------------------------------------------------------------------------

/// The value of an optional index.
pub open spec fn index_value(r: Option<usize>) -> Option<int> {
    match r {
        Some(i) => Some(i as int),
        None => None,
    }
}

/// Whether the requirements `constraints` include `(implements parameter trait_name)`.
fn requires_trait(constraints: &Vec<Constraint>, parameter: &str, trait_name: &str) -> (r: bool)
    ensures
        r == required(views(constraints@), parameter@, trait_name@),
{
    let mut i: usize = 0;
    while i < constraints.len()
        invariant
            i <= constraints@.len(),
            forall|j: int| 0 <= j < i ==> !(constraints@[j].parameter@ == parameter@ && constraints@[j].trait_name@ == trait_name@),
        decreases constraints@.len() - i,
    {
        if same_text(constraints[i].parameter.as_str(), parameter) && same_text(constraints[i].trait_name.as_str(), trait_name) {
            assert(views(constraints@)[i as int] == constraints@[i as int]@);
            return true;
        }
        i += 1;
    }
    assert(!required(views(constraints@), parameter@, trait_name@)) by {
        if required(views(constraints@), parameter@, trait_name@) {
            let k = choose|k: int| 0 <= k < views(constraints@).len() && views(constraints@)[k].parameter == parameter@ && views(constraints@)[k].trait_name == trait_name@;
            assert(views(constraints@)[k] == constraints@[k]@);
        }
    }
    false
}

/// Checks that call arguments have exactly the parameter types.
fn check_arguments(name: &str, actual: &Vec<Type>, expected: &Vec<Type>) -> (r: Result<(), Error>)
    ensures
        match arguments_fit(name@, tys(actual@), tys(expected@)) {
            Ok(_) => r is Ok,
            Err(m) => r matches Err(e) && e@ == m,
        },
{
    if same_types(actual, expected) {
        Ok(())
    } else {
        Err(Error::new(join3("arguments to `", name, "` do not match its parameter types")))
    }
}

/// The parameter types of a list of parameters.
fn parameter_types(parameters: &Vec<Parameter>) -> (r: Vec<Type>)
    ensures
        tys(r@) == param_types(views(parameters@)),
{
    let mut r: Vec<Type> = Vec::new();
    let mut i: usize = 0;
    while i < parameters.len()
        invariant
            i <= parameters@.len(),
            r@.len() == i,
            forall|j: int| 0 <= j < i ==> #[trigger] r@[j]@ == parameters@[j].ty@,
        decreases parameters@.len() - i,
    {
        r.push(parameters[i].ty.duplicate());
        i += 1;
    }
    assert(tys(r@) =~= param_types(views(parameters@)));
    r
}

/// The type arguments of a call of a generic function, as a substitution.
fn infer_type_arguments(function: &FunctionDefinition, arguments: &Vec<Type>) -> (r: Result<Substitution, Error>)
    ensures
        match inferred(function@, tys(arguments@)) {
            Ok(s) => r matches Ok(v) && bindings(v@) == s,
            Err(m) => r matches Err(e) && e@ == m,
        },
{
    let ghost g = function@;
    let ghost args = tys(arguments@);
    if function.parameters.len() != arguments.len() {
        let expected = decimal(function.parameters.len());
        let received = decimal(arguments.len());
        let mut message = join5("function `", function.name.as_str(), "` expects ", expected.as_str(), " arguments, received ");
        message.append(received.as_str());
        return Err(Error::new(message));
    }
    let mut substitutions: Substitution = Vec::new();
    assert(bindings(substitutions@) =~= seq![]);
    let mut k: usize = 0;
    while k < function.parameters.len()
        invariant
            g == function@,
            args == tys(arguments@),
            g.parameters.len() == args.len(),
            k <= function.parameters@.len(),
            unified_from(g.parameters, args, 0, seq![]) == unified_from(g.parameters, args, k as int, bindings(substitutions@)),
        decreases function.parameters@.len() - k,
    {
        assert(g.parameters[k as int] == function.parameters@[k as int]@);
        if !unify(&function.parameters[k].ty, &arguments[k], &mut substitutions) {
            return Err(Error::new(join3("arguments to `", function.name.as_str(), "` do not match its parameter types")));
        }
        k += 1;
    }
    let mut k: usize = 0;
    while k < function.type_parameters.len()
        invariant
            g == function@,
            args == tys(arguments@),
            g.parameters.len() == args.len(),
            unified_from(g.parameters, args, 0, seq![]) == Some(bindings(substitutions@)),
            k <= function.type_parameters@.len(),
            first_unbound(g.type_parameters, bindings(substitutions@), 0) == first_unbound(g.type_parameters, bindings(substitutions@), k as int),
        decreases function.type_parameters@.len() - k,
    {
        assert(g.type_parameters[k as int] == function.type_parameters@[k as int]@);
        if lookup(&substitutions, function.type_parameters[k].as_str()).is_none() {
            return Err(Error::new(join5(
                "could not determine type parameter `",
                function.type_parameters[k].as_str(),
                "` for `",
                function.name.as_str(),
                "`",
            )));
        }
        k += 1;
    }
    Ok(substitutions)
}

/// What `Self` stands for in a call of a trait method with these argument types.
fn match_trait_signature(signature: &MethodSignature, arguments: &Vec<Type>) -> (r: Option<Type>)
    ensures
        match trait_signature_match(signature@, tys(arguments@)) {
            Some(t) => r matches Some(ty) && ty@ == t,
            None => r is None,
        },
{
    let ghost m = signature@;
    let ghost args = tys(arguments@);
    if signature.parameters.len() != arguments.len() {
        return None;
    }
    let mut self_type: Option<Type> = None;
    let mut k: usize = 0;
    while k < signature.parameters.len()
        invariant
            m == signature@,
            args == tys(arguments@),
            m.parameters.len() == args.len(),
            k <= signature.parameters@.len(),
            self_from(m.parameters, args, 0, None) == self_from(m.parameters, args, k as int, match self_type {
                Some(t) => Some(t@),
                None => None,
            }),
        decreases signature.parameters@.len() - k,
    {
        assert(m.parameters[k as int] == signature.parameters@[k as int]@);
        if !match_self_type(&signature.parameters[k].ty, &arguments[k], &mut self_type) {
            return None;
        }
        k += 1;
    }
    self_type
}

impl Analyzer {
    /// The index of the non-generic function named `name`.
    fn find_concrete(&self, name: &str) -> (r: Option<usize>)
        ensures
            index_value(r) == index_of(concrete_names(self.env().concrete), name@),
            r matches Some(i) ==> i < self.concrete_functions@.len(),
    {
        let ghost names = concrete_names(self.env().concrete);
        let mut i: usize = 0;
        while i < self.concrete_functions.len()
            invariant
                names == concrete_names(self.env().concrete),
                i <= self.concrete_functions@.len(),
                forall|j: int| 0 <= j < i ==> names[j] != name@,
            decreases self.concrete_functions@.len() - i,
        {
            if same_text(self.concrete_functions[i].definition.name.as_str(), name) {
                proof {
                    lemma_index_of_found(names, name@, i as int);
                }
                return Some(i);
            }
            i += 1;
        }
        proof {
            lemma_index_of_absent(names, name@);
        }
        None
    }

    /// The index of the generic function named `name`.
    fn find_generic(&self, name: &str) -> (r: Option<usize>)
        ensures
            index_value(r) == index_of(function_names(self.env().generic), name@),
            r matches Some(i) ==> i < self.generic_functions@.len(),
    {
        let ghost names = function_names(self.env().generic);
        let mut i: usize = 0;
        while i < self.generic_functions.len()
            invariant
                names == function_names(self.env().generic),
                i <= self.generic_functions@.len(),
                forall|j: int| 0 <= j < i ==> names[j] != name@,
            decreases self.generic_functions@.len() - i,
        {
            if same_text(self.generic_functions[i].name.as_str(), name) {
                proof {
                    lemma_index_of_found(names, name@, i as int);
                }
                return Some(i);
            }
            i += 1;
        }
        proof {
            lemma_index_of_absent(names, name@);
        }
        None
    }

    /// The index of the trait named `name`.
    fn find_trait(&self, name: &str) -> (r: Option<usize>)
        ensures
            index_value(r) == index_of(trait_names(self.env().traits), name@),
            r matches Some(i) ==> i < self.traits@.len(),
    {
        let ghost names = trait_names(self.env().traits);
        let mut i: usize = 0;
        while i < self.traits.len()
            invariant
                names == trait_names(self.env().traits),
                i <= self.traits@.len(),
                forall|j: int| 0 <= j < i ==> names[j] != name@,
            decreases self.traits@.len() - i,
        {
            if same_text(self.traits[i].name.as_str(), name) {
                proof {
                    lemma_index_of_found(names, name@, i as int);
                }
                return Some(i);
            }
            i += 1;
        }
        proof {
            lemma_index_of_absent(names, name@);
        }
        None
    }

    /// Whether trait `trait_name` is implemented for `ty`.
    fn has_impl(&self, trait_name: &str, ty: &Type) -> (r: bool)
        ensures
            r == implemented(self.env().impls, trait_name@, ty@),
    {
        let ghost impls = self.env().impls;
        let mut i: usize = 0;
        while i < self.impl_methods.len()
            invariant
                impls == self.env().impls,
                i <= self.impl_methods@.len(),
                forall|j: int| 0 <= j < i ==> !(impls[j].trait_name == trait_name@ && impls[j].for_type == ty@),
            decreases self.impl_methods@.len() - i,
        {
            assert(impls[i as int] == self.impl_methods@[i as int]@);
            if same_text(self.impl_methods[i].trait_name.as_str(), trait_name) && self.impl_methods[i].for_type.same(ty) {
                return true;
            }
            i += 1;
        }
        false
    }

    /// Checks the requirements of a generic function under a substitution, in a caller
    /// whose own requirements are `caller_constraints`.
    fn check_requirements(&self, definition: &FunctionDefinition, substitutions: &Substitution, caller_constraints: &Vec<Constraint>) -> (r: Result<(), Error>)
        ensures
            match requirements_hold_from(self.env().impls, definition@, bindings(substitutions@), views(caller_constraints@), 0) {
                Ok(_) => r is Ok,
                Err(m) => r matches Err(e) && e@ == m,
            },
    {
        let ghost g = definition@;
        let ghost s = bindings(substitutions@);
        let ghost cs = views(caller_constraints@);
        let mut k: usize = 0;
        while k < definition.constraints.len()
            invariant
                g == definition@,
                s == bindings(substitutions@),
                cs == views(caller_constraints@),
                k <= definition.constraints@.len(),
                requirements_hold_from(self.env().impls, g, s, cs, 0) == requirements_hold_from(self.env().impls, g, s, cs, k as int),
            decreases definition.constraints@.len() - k,
        {
            let constraint = &definition.constraints[k];
            assert(g.constraints[k as int] == constraint@);
            let ty = match lookup(substitutions, constraint.parameter.as_str()) {
                Some(t) => t,
                None => {
                    return Err(Error::new(join5(
                        "could not determine type parameter `",
                        constraint.parameter.as_str(),
                        "` for `",
                        definition.name.as_str(),
                        "`",
                    )));
                },
            };
            let satisfied = match ty {
                Type::Parameter(parameter) => requires_trait(caller_constraints, parameter.as_str(), constraint.trait_name.as_str()),
                concrete => self.has_impl(constraint.trait_name.as_str(), concrete),
            };
            if !satisfied {
                let text = ty.text();
                let mut message = join5("type `", text.as_str(), "` does not implement trait `", constraint.trait_name.as_str(), "` required by `");
                message.append(definition.name.as_str());
                message.append("`");
                return Err(Error::new(message));
            }
            k += 1;
        }
        Ok(())
    }

    /// The type of a call of `name` with these argument types, inside a generic
    /// function with requirements `constraints`.
    fn validate_call(&self, name: &str, arguments: &Vec<Type>, constraints: &Vec<Constraint>) -> (r: Result<Type, Error>)
        ensures
            match call_type(self.env(), name@, tys(arguments@), views(constraints@)) {
                Ok(t) => r matches Ok(ty) && ty@ == t,
                Err(m) => r matches Err(e) && e@ == m,
            },
    {
        let ghost env = self.env();
        let ghost args = tys(arguments@);
        let ghost cs = views(constraints@);
        if let Some(i) = self.find_concrete(name) {
            let function = &self.concrete_functions[i];
            assert(env.concrete[i as int] == function@);
            let parameters = parameter_types(&function.definition.parameters);
            match check_arguments(name, arguments, &parameters) {
                Ok(_) => {},
                Err(e) => {
                    return Err(e);
                },
            }
            return Ok(function.definition.return_type.duplicate());
        }
        if let Some(i) = self.find_generic(name) {
            let function = &self.generic_functions[i];
            assert(env.generic[i as int] == function@);
            let substitutions = match infer_type_arguments(function, arguments) {
                Ok(s) => s,
                Err(e) => {
                    return Err(e);
                },
            };
            match self.check_requirements(function, &substitutions, constraints) {
                Ok(_) => {},
                Err(e) => {
                    return Err(e);
                },
            }
            return Ok(substitute(&function.return_type, &substitutions));
        }
        let mut matches: Vec<Type> = Vec::new();
        let mut k: usize = 0;
        assert(tys(matches@) =~= seq![]);
        while k < self.traits.len()
            invariant
                env == self.env(),
                args == tys(arguments@),
                cs == views(constraints@),
                k <= self.traits@.len(),
                trait_candidates_from(env, name@, args, cs, 0) == tys(matches@) + trait_candidates_from(env, name@, args, cs, k as int),
            decreases self.traits@.len() - k,
        {
            let trait_definition = &self.traits[k];
            let ghost t = trait_definition@;
            assert(env.traits[k as int] == t);
            let ghost before = tys(matches@);
            let mut j: usize = 0;
            assert(method_candidates_from(env.impls, t, name@, args, cs, 0) =~= seq![] + method_candidates_from(env.impls, t, name@, args, cs, 0));
            while j < trait_definition.methods.len()
                invariant
                    env == self.env(),
                    args == tys(arguments@),
                    cs == views(constraints@),
                    t == trait_definition@,
                    j <= trait_definition.methods@.len(),
                    before + method_candidates_from(env.impls, t, name@, args, cs, 0) == tys(matches@) + method_candidates_from(env.impls, t, name@, args, cs, j as int),
                decreases trait_definition.methods@.len() - j,
            {
                let method = &trait_definition.methods[j];
                assert(t.methods[j as int] == method@);
                let ghost here_before = tys(matches@);
                if same_text(method.name.as_str(), name) {
                    if let Some(self_type) = match_trait_signature(method, arguments) {
                        let available = match &self_type {
                            Type::Parameter(parameter) => requires_trait(constraints, parameter.as_str(), trait_definition.name.as_str()),
                            concrete => self.has_impl(trait_definition.name.as_str(), concrete),
                        };
                        if available {
                            let r = replace_self(&method.return_type, &self_type);
                            matches.push(r);
                            assert(tys(matches@) =~= here_before + seq![r@]);
                        }
                    }
                }
                proof {
                    let rest = method_candidates_from(env.impls, t, name@, args, cs, j + 1);
                    let here = method_candidates_from(env.impls, t, name@, args, cs, j as int);
                    assert(here == (here.subrange(0, here.len() - rest.len()) + rest));
                    assert(tys(matches@) + rest =~= here_before + here);
                }
                j += 1;
            }
            proof {
                assert(method_candidates_from(env.impls, t, name@, args, cs, j as int) =~= seq![]);
                assert(tys(matches@) + seq![] =~= tys(matches@));
                let mc = method_candidates_from(env.impls, t, name@, args, cs, 0);
                let rest = trait_candidates_from(env, name@, args, cs, k + 1);
                assert(trait_candidates_from(env, name@, args, cs, k as int) == mc + rest);
                assert(before + (mc + rest) =~= (before + mc) + rest);
            }
            k += 1;
        }
        proof {
            assert(tys(matches@) + seq![] =~= tys(matches@));
        }
        if matches.len() == 1 {
            let r = matches.pop().unwrap();
            assert(r@ == tys(matches@.push(r))[0]);
            Ok(r)
        } else if matches.len() == 0 {
            Err(Error::new(join3("no function or trait method `", name, "` accepts the supplied argument types")))
        } else {
            Err(Error::new(join3("call to trait method `", name, "` is ambiguous")))
        }
    }
}

/// The names and types of a function's parameters, as a substitution-like scope.
fn parameter_scope(parameters: &Vec<Parameter>) -> (r: Vec<(String, Type)>)
    ensures
        bindings(r@) == parameter_bindings(views(parameters@)),
{
    let mut r: Vec<(String, Type)> = Vec::new();
    let mut i: usize = 0;
    while i < parameters.len()
        invariant
            i <= parameters@.len(),
            r@.len() == i,
            forall|j: int| 0 <= j < i ==> #[trigger] r@[j].0@ == parameters@[j].name@ && r@[j].1@ == parameters@[j].ty@,
        decreases parameters@.len() - i,
    {
        r.push((parameters[i].name.clone(), parameters[i].ty.duplicate()));
        i += 1;
    }
    assert(bindings(r@) =~= parameter_bindings(views(parameters@)));
    r
}

impl Analyzer {
    /// The type of an expression in a generic function whose parameters are `scope`
    /// and whose requirements are `constraints`.
    fn validate_expression(&self, expression: &Expression, scope: &Vec<(String, Type)>, constraints: &Vec<Constraint>) -> (r: Result<Type, Error>)
        ensures
            match form_type(self.env(), expression@, bindings(scope@), views(constraints@)) {
                Ok(t) => r matches Ok(ty) && ty@ == t,
                Err(m) => r matches Err(e) && e@ == m,
            },
        decreases expression,
    {
        let ghost env = self.env();
        let ghost b = bindings(scope@);
        let ghost cs = views(constraints@);
        match expression {
            Expression::Integer(_) => Ok(Type::Int),
            Expression::String(_) => Ok(Type::String),
            Expression::Symbol(name) => match lookup(scope, name.as_str()) {
                Some(t) => Ok(t.duplicate()),
                None => Err(Error::new(join3("unknown name `", name.as_str(), "`"))),
            },
            Expression::List(expressions) => {
                let ghost es = views(expressions@);
                assert(es == expression@->List_0);
                let operator = match first_symbol(expressions, "expression must begin with an operator") {
                    Ok(op) => op,
                    Err(e) => {
                        return Err(e);
                    },
                };
                if same_text(operator.as_str(), "do") {
                    if expressions.len() == 1 {
                        return Err(error("`do` requires at least one expression"));
                    }
                    let mut ty = Type::Unit;
                    let mut k: usize = 1;
                    while k < expressions.len()
                        invariant
                            *expression == Expression::List(*expressions),
                            env == self.env(),
                            b == bindings(scope@),
                            cs == views(constraints@),
                            es == views(expressions@),
                            1 <= k <= expressions@.len(),
                            form_type(env, expression@, b, cs) == sequence_type(env, es, 1, Ty::Unit, b, cs),
                            sequence_type(env, es, 1, Ty::Unit, b, cs) == sequence_type(env, es, k as int, ty@, b, cs),
                        decreases expressions@.len() - k,
                    {
                        proof {
                            assert(decreases_to!(*expression => (*expression)->List_0));
                            assert(decreases_to!(*expressions => expressions@));
                            assert(decreases_to!(expressions@ => expressions@[k as int]));
                        }
                        assert(es[k as int] == expressions@[k as int]@);
                        ty = match self.validate_expression(&expressions[k], scope, constraints) {
                            Ok(t) => t,
                            Err(e) => {
                                return Err(e);
                            },
                        };
                        k += 1;
                    }
                    Ok(ty)
                } else if same_text(operator.as_str(), "print") {
                    let ok = expressions.len() == 2 && match &expressions[1] {
                        Expression::String(_) => true,
                        _ => false,
                    };
                    proof {
                        if expressions@.len() == 2 {
                            assert(es[1] == expressions@[1]@);
                        }
                    }
                    if ok {
                        Ok(Type::Unit)
                    } else {
                        Err(error("`print` requires exactly one string literal"))
                    }
                } else if same_text(operator.as_str(), "+") {
                    if expressions.len() != 3 {
                        return Err(error("`+` requires exactly two arguments"));
                    }
                    proof {
                        assert(decreases_to!(*expression => (*expression)->List_0));
                        assert(decreases_to!(*expressions => expressions@));
                        assert(decreases_to!(expressions@ => expressions@[1]));
                        assert(decreases_to!(expressions@ => expressions@[2]));
                    }
                    assert(es[1] == expressions@[1]@);
                    assert(es[2] == expressions@[2]@);
                    let left = match self.validate_expression(&expressions[1], scope, constraints) {
                        Ok(t) => t,
                        Err(e) => {
                            return Err(e);
                        },
                    };
                    let right = match self.validate_expression(&expressions[2], scope, constraints) {
                        Ok(t) => t,
                        Err(e) => {
                            return Err(e);
                        },
                    };
                    if !left.same(&Type::Int) || !right.same(&Type::Int) {
                        return Err(error("`+` requires two `Int` arguments"));
                    }
                    Ok(Type::Int)
                } else {
                    let mut types: Vec<Type> = Vec::new();
                    let mut k: usize = 1;
                    assert(tys(types@) =~= seq![]);
                    while k < expressions.len()
                        invariant
                            *expression == Expression::List(*expressions),
                            env == self.env(),
                            b == bindings(scope@),
                            cs == views(constraints@),
                            es == views(expressions@),
                            1 <= k <= expressions@.len(),
                            form_type(env, expression@, b, cs) == match argument_types(env, es, 1, seq![], b, cs) {
                                Err(e) => Err(e),
                                Ok(args) => call_type(env, operator@, args, cs),
                            },
                            argument_types(env, es, 1, seq![], b, cs) == argument_types(env, es, k as int, tys(types@), b, cs),
                        decreases expressions@.len() - k,
                    {
                        proof {
                            assert(decreases_to!(*expression => (*expression)->List_0));
                            assert(decreases_to!(*expressions => expressions@));
                            assert(decreases_to!(expressions@ => expressions@[k as int]));
                        }
                        assert(es[k as int] == expressions@[k as int]@);
                        let t = match self.validate_expression(&expressions[k], scope, constraints) {
                            Ok(t) => t,
                            Err(e) => {
                                return Err(e);
                            },
                        };
                        let ghost before = tys(types@);
                        types.push(t);
                        assert(tys(types@) =~= before.push(t@));
                        k += 1;
                    }
                    self.validate_call(operator.as_str(), &types, constraints)
                }
            },
        }
    }

    /// Checks a generic function: its requirements name known traits and its body has
    /// its return type.
    fn validate_generic_function(&self, definition: &FunctionDefinition) -> (r: Result<(), Error>)
        ensures
            match generic_check(self.env(), definition@) {
                Ok(_) => r is Ok,
                Err(m) => r matches Err(e) && e@ == m,
            },
    {
        let ghost env = self.env();
        let ghost g = definition@;
        let mut k: usize = 0;
        while k < definition.constraints.len()
            invariant
                env == self.env(),
                g == definition@,
                k <= definition.constraints@.len(),
                unknown_requirement_from(env, g, 0) == unknown_requirement_from(env, g, k as int),
            decreases definition.constraints@.len() - k,
        {
            assert(g.constraints[k as int] == definition.constraints@[k as int]@);
            if self.find_trait(definition.constraints[k].trait_name.as_str()).is_none() {
                return Err(Error::new(join5(
                    "unknown trait `",
                    definition.constraints[k].trait_name.as_str(),
                    "` in requirements for `",
                    definition.name.as_str(),
                    "`",
                )));
            }
            k += 1;
        }
        let scope = parameter_scope(&definition.parameters);
        let body_type = match self.validate_expression(&definition.body, &scope, &definition.constraints) {
            Ok(t) => t,
            Err(e) => {
                return Err(e);
            },
        };
        if !body_type.same(&definition.return_type) {
            let actual = body_type.text();
            let expected = definition.return_type.text();
            return Err(Error::new(join7(
                "function `",
                definition.name.as_str(),
                "` body has type `",
                actual.as_str(),
                "`, expected `",
                expected.as_str(),
                "`",
            )));
        }
        Ok(())
    }
}

// ---------------------------------------------------------------------------
// Registration
// ---------------------------------------------------------------------------

/// Whether some name occurs twice.
pub open spec fn has_repeat(names: Seq<Seq<char>>) -> bool {
    exists|i: int, j: int| 0 <= i < j < names.len() && names[i] == names[j]
}

/// The first name in `names[k..]` that also occurs before it.
pub open spec fn repeat_from(names: Seq<Seq<char>>, k: int) -> Option<Seq<char>>
    decreases names.len() - k,
{
    if k < 0 || k >= names.len() {
        None
    } else if names.subrange(0, k).contains(names[k]) {
        Some(names[k])
    } else {
        repeat_from(names, k + 1)
    }
}

/// The symbol of a non-generic function's program function.
pub open spec fn function_symbol(name: Seq<char>) -> Seq<char> {
    if name == "main"@ {
        "main"@
    } else {
        "kal.fn."@ + name
    }
}

/// Registered functions: the non-generic ones, the generic ones, and the program
/// functions reserved so far.
pub struct Registry {
    pub concrete: Seq<ConcreteDecl>,
    pub generic: Seq<FunctionDecl>,
    pub pending: Seq<PendingDecl>,
}

/// Registers the functions `fs[k..]`: names must be unique; each non-generic function
/// gets a program function now.
pub open spec fn register_functions_from(fs: Seq<FunctionDecl>, k: int, r: Registry) -> Result<Registry, Seq<char>>
    decreases fs.len() - k,
{
    if k < 0 || k >= fs.len() {
        Ok(r)
    } else {
        let f = fs[k];
        if concrete_names(r.concrete).contains(f.name) || function_names(r.generic).contains(f.name) {
            Err("function `"@ + f.name + "` is defined more than once"@)
        } else if f.type_parameters.len() == 0 {
            let pending = PendingDecl {
                symbol: function_symbol(f.name),
                parameters: param_types(f.parameters),
                return_type: f.return_type,
                body: None,
            };
            register_functions_from(
                fs,
                k + 1,
                Registry {
                    concrete: r.concrete.push(ConcreteDecl { definition: f, function: r.pending.len() as int }),
                    generic: r.generic,
                    pending: r.pending.push(pending),
                },
            )
        } else {
            register_functions_from(fs, k + 1, Registry { generic: r.generic.push(f), ..r })
        }
    }
}

/// The parameter types a trait method has for a given `Self`.
pub open spec fn expected_parameters(sig: MethodDecl, for_type: Ty) -> Seq<Ty> {
    Seq::new(sig.parameters.len(), |x: int| self_replaced(sig.parameters[x].ty, for_type))
}

/// The symbol of an implemented method's program function.
pub open spec fn impl_symbol(trait_name: Seq<char>, for_type: Ty, method: Seq<char>) -> Seq<char> {
    "kal.impl."@ + trait_name + "."@ + type_text(for_type) + "."@ + method
}

/// Registers, for the implementation `imp` of trait `t`, the methods that implement
/// the signatures `t.methods[j..]`.
pub open spec fn signatures_from(imp: ImplDecl, t: TraitDecl, j: int, methods: Seq<ImplMethodDecl>, pending: Seq<PendingDecl>) -> Result<(Seq<ImplMethodDecl>, Seq<PendingDecl>), Seq<char>>
    decreases t.methods.len() - j,
{
    if j < 0 || j >= t.methods.len() {
        Ok((methods, pending))
    } else {
        let sig = t.methods[j];
        match index_of(function_names(imp.methods), sig.name) {
            None => Err(
                "implementation of `"@ + imp.trait_name + "` for `"@ + type_text(imp.for_type) + "` is missing method `"@
                    + sig.name + "`"@,
            ),
            Some(di) => {
                let def = imp.methods[di];
                let actual = param_types(def.parameters);
                if actual != expected_parameters(sig, imp.for_type) || def.return_type != self_replaced(sig.return_type, imp.for_type) {
                    Err(
                        "method `"@ + sig.name + "` does not match trait `"@ + imp.trait_name + "` for `"@
                            + type_text(imp.for_type) + "`"@,
                    )
                } else {
                    let method = ImplMethodDecl {
                        trait_name: imp.trait_name,
                        for_type: imp.for_type,
                        signature: sig,
                        definition: def,
                        function: pending.len() as int,
                    };
                    let reserved = PendingDecl {
                        symbol: impl_symbol(imp.trait_name, imp.for_type, sig.name),
                        parameters: actual,
                        return_type: def.return_type,
                        body: None,
                    };
                    signatures_from(imp, t, j + 1, methods.push(method), pending.push(reserved))
                }
            },
        }
    }
}

/// The first method of `imp.methods[k..]` that trait `t` does not declare.
pub open spec fn undeclared_from(imp: ImplDecl, t: TraitDecl, k: int) -> Option<Seq<char>>
    decreases imp.methods.len() - k,
{
    if k < 0 || k >= imp.methods.len() {
        None
    } else if !method_names(t.methods).contains(imp.methods[k].name) {
        Some(imp.methods[k].name)
    } else {
        undeclared_from(imp, t, k + 1)
    }
}

/// Registered implementations: the (trait, type) pairs implemented so far, the
/// implemented methods, and the program functions reserved so far.
pub struct ImplRegistry {
    pub implemented: Seq<(Seq<char>, Ty)>,
    pub methods: Seq<ImplMethodDecl>,
    pub pending: Seq<PendingDecl>,
}

/// Registers the implementations `impls[k..]` of the traits `traits`.
pub open spec fn register_impls_from(traits: Seq<TraitDecl>, impls: Seq<ImplDecl>, k: int, r: ImplRegistry) -> Result<ImplRegistry, Seq<char>>
    decreases impls.len() - k,
{
    if k < 0 || k >= impls.len() {
        Ok(r)
    } else {
        let imp = impls[k];
        match index_of(trait_names(traits), imp.trait_name) {
            None => Err("unknown trait `"@ + imp.trait_name + "` in implementation"@),
            Some(ti) => {
                let t = traits[ti];
                if r.implemented.contains((imp.trait_name, imp.for_type)) {
                    Err(
                        "trait `"@ + imp.trait_name + "` is implemented more than once for `"@ + type_text(imp.for_type)
                            + "`"@,
                    )
                } else {
                    match repeat_from(function_names(imp.methods), 0) {
                        Some(m) => Err("method `"@ + m + "` is implemented more than once"@),
                        None => match signatures_from(imp, t, 0, r.methods, r.pending) {
                            Err(e) => Err(e),
                            Ok((ms, ps)) => match undeclared_from(imp, t, 0) {
                                Some(x) => Err("method `"@ + x + "` is not declared by trait `"@ + imp.trait_name + "`"@),
                                None => register_impls_from(
                                    traits,
                                    impls,
                                    k + 1,
                                    ImplRegistry {
                                        implemented: r.implemented.push((imp.trait_name, imp.for_type)),
                                        methods: ms,
                                        pending: ps,
                                    },
                                ),
                            },
                        },
                    }
                }
            },
        }
    }
}

/// The declarations registered, and the program functions reserved for the
/// non-generic functions and the implemented methods.
pub struct Setup {
    pub env: Env,
    pub pending: Seq<PendingDecl>,
}

/// Registration of a program's declarations, once its functions are registered.
pub open spec fn finish_setup(d: Decls, functions: Result<Registry, Seq<char>>) -> Result<Setup, Seq<char>> {
    match functions {
        Err(e) => Err(e),
        Ok(reg) => match register_impls_from(d.traits, d.implementations, 0, ImplRegistry { implemented: seq![], methods: seq![], pending: reg.pending }) {
            Err(e) => Err(e),
            Ok(ir) => Ok(Setup {
                env: Env { traits: d.traits, concrete: reg.concrete, generic: reg.generic, impls: ir.methods },
                pending: ir.pending,
            }),
        },
    }
}

/// Registration of a program's declarations.
pub open spec fn setup(d: Decls) -> Result<Setup, Seq<char>> {
    if has_repeat(trait_names(d.traits)) {
        Err("trait names must be unique"@)
    } else {
        finish_setup(d, register_functions_from(d.functions, 0, Registry { concrete: seq![], generic: seq![], pending: seq![] }))
    }
}

/// What the search for a repeated name from index `k` finds.
proof fn lemma_repeat_from(names: Seq<Seq<char>>, k: int)
    requires
        0 <= k <= names.len(),
    ensures
        match repeat_from(names, k) {
            Some(n) => exists|i: int| k <= i < names.len() && names[i] == n && names.subrange(0, i).contains(n)
                && forall|j: int| k <= j < i ==> !names.subrange(0, j).contains(#[trigger] names[j]),
            None => forall|j: int| k <= j < names.len() ==> !names.subrange(0, j).contains(#[trigger] names[j]),
        },
    decreases names.len() - k,
{
    if k < names.len() && !names.subrange(0, k).contains(names[k]) {
        lemma_repeat_from(names, k + 1);
    }
}

impl Analyzer {
    /// Reserves a program function with this signature; its body comes later.
    fn reserve_function(&mut self, symbol: String, parameters: Vec<Type>, return_type: Type) -> (index: usize)
        ensures
            index == old(self).pending_functions@.len(),
            views(final(self).pending_functions@) == views(old(self).pending_functions@).push(
                PendingDecl { symbol: symbol@, parameters: tys(parameters@), return_type: return_type@, body: None },
            ),
            final(self).traits == old(self).traits,
            final(self).concrete_functions == old(self).concrete_functions,
            final(self).generic_functions == old(self).generic_functions,
            final(self).impl_methods == old(self).impl_methods,
            final(self).specializations == old(self).specializations,
            final(self).strings == old(self).strings,
    {
        let index = self.pending_functions.len();
        let ghost before = views(self.pending_functions@);
        self.pending_functions.push(PendingFunction { symbol, parameters, return_type, body: None });
        assert(views(self.pending_functions@) =~= before.push(self.pending_functions@[index as int]@));
        index
    }
}

/// Whether two trait definitions share a name.
fn traits_repeat(traits: &Vec<TraitDefinition>) -> (r: bool)
    ensures
        r == has_repeat(trait_names(views(traits@))),
{
    let ghost names = trait_names(views(traits@));
    let mut i: usize = 0;
    while i < traits.len()
        invariant
            names == trait_names(views(traits@)),
            i <= traits@.len(),
            forall|a: int, b: int| 0 <= a < b < i ==> names[a] != names[b],
        decreases traits@.len() - i,
    {
        let mut j: usize = 0;
        while j < i
            invariant
                names == trait_names(views(traits@)),
                j <= i < traits@.len(),
                forall|a: int| 0 <= a < j ==> names[a] != names[i as int],
            decreases i - j,
        {
            assert(names[j as int] == traits@[j as int].name@);
            assert(names[i as int] == traits@[i as int].name@);
            if same_text(traits[j].name.as_str(), traits[i].name.as_str()) {
                return true;
            }
            j += 1;
        }
        i += 1;
    }
    false
}

/// The index of the first definition whose name also belongs to an earlier one.
fn repeated_definition(defs: &Vec<FunctionDefinition>) -> (r: Option<usize>)
    ensures
        match repeat_from(function_names(views(defs@)), 0) {
            Some(n) => r matches Some(i) && i < defs@.len() && defs@[i as int].name@ == n,
            None => r is None,
        },
{
    let ghost names = function_names(views(defs@));
    let mut i: usize = 0;
    while i < defs.len()
        invariant
            names == function_names(views(defs@)),
            i <= defs@.len(),
            repeat_from(names, 0) == repeat_from(names, i as int),
        decreases defs@.len() - i,
    {
        let mut j: usize = 0;
        while j < i
            invariant
                names == function_names(views(defs@)),
                j <= i < defs@.len(),
                repeat_from(names, 0) == repeat_from(names, i as int),
                forall|a: int| 0 <= a < j ==> names[a] != names[i as int],
            decreases i - j,
        {
            assert(names[j as int] == defs@[j as int].name@);
            assert(names[i as int] == defs@[i as int].name@);
            if same_text(defs[j].name.as_str(), defs[i].name.as_str()) {
                assert(names.subrange(0, i as int)[j as int] == names[i as int]);
                return Some(i);
            }
            j += 1;
        }
        assert(!names.subrange(0, i as int).contains(names[i as int])) by {
            if names.subrange(0, i as int).contains(names[i as int]) {
                let a = choose|a: int| 0 <= a < i && names.subrange(0, i as int)[a] == names[i as int];
                assert(names[a] == names[i as int]);
            }
        }
        i += 1;
    }
    None
}

/// The index of the first definition named `name`.
fn find_definition(defs: &Vec<FunctionDefinition>, name: &str) -> (r: Option<usize>)
    ensures
        index_value(r) == index_of(function_names(views(defs@)), name@),
        r matches Some(i) ==> i < defs@.len(),
{
    let ghost names = function_names(views(defs@));
    let mut i: usize = 0;
    while i < defs.len()
        invariant
            names == function_names(views(defs@)),
            i <= defs@.len(),
            forall|j: int| 0 <= j < i ==> names[j] != name@,
        decreases defs@.len() - i,
    {
        assert(names[i as int] == defs@[i as int].name@);
        if same_text(defs[i].name.as_str(), name) {
            proof {
                lemma_index_of_found(names, name@, i as int);
            }
            return Some(i);
        }
        i += 1;
    }
    proof {
        lemma_index_of_absent(names, name@);
    }
    None
}

/// The index of the first method of `imp` that trait `t` does not declare.
fn undeclared_method(imp: &ImplDefinition, t: &TraitDefinition) -> (r: Option<usize>)
    ensures
        match undeclared_from(imp@, t@, 0) {
            Some(n) => r matches Some(i) && i < imp.methods@.len() && imp.methods@[i as int].name@ == n,
            None => r is None,
        },
{
    let mut i: usize = 0;
    while i < imp.methods.len()
        invariant
            i <= imp.methods@.len(),
            undeclared_from(imp@, t@, 0) == undeclared_from(imp@, t@, i as int),
        decreases imp.methods@.len() - i,
    {
        assert(imp@.methods[i as int] == imp.methods@[i as int]@);
        if !crate::declarations::has_method_named(&t.methods, imp.methods[i].name.as_str()) {
            return Some(i);
        }
        i += 1;
    }
    None
}

/// Whether `pairs` holds `(name, ty)`.
fn has_pair(pairs: &Vec<(String, Type)>, name: &str, ty: &Type) -> (r: bool)
    ensures
        r == bindings(pairs@).contains((name@, ty@)),
{
    let ghost b = bindings(pairs@);
    let mut i: usize = 0;
    while i < pairs.len()
        invariant
            b == bindings(pairs@),
            i <= pairs@.len(),
            forall|j: int| 0 <= j < i ==> b[j] != (name@, ty@),
        decreases pairs@.len() - i,
    {
        if same_text(pairs[i].0.as_str(), name) && pairs[i].1.same(ty) {
            assert(b[i as int] == (name@, ty@));
            return true;
        }
        i += 1;
    }
    false
}

/// The parameter types that a trait method has for a given `Self`.
fn self_parameters(signature: &MethodSignature, for_type: &Type) -> (r: Vec<Type>)
    ensures
        tys(r@) == expected_parameters(signature@, for_type@),
{
    let mut r: Vec<Type> = Vec::new();
    let mut i: usize = 0;
    while i < signature.parameters.len()
        invariant
            i <= signature.parameters@.len(),
            r@.len() == i,
            forall|j: int| 0 <= j < i ==> #[trigger] r@[j]@ == self_replaced(signature.parameters@[j].ty@, for_type@),
        decreases signature.parameters@.len() - i,
    {
        r.push(replace_self(&signature.parameters[i].ty, for_type));
        i += 1;
    }
    assert(tys(r@) =~= expected_parameters(signature@, for_type@));
    r
}

impl Analyzer {
    /// Registers the methods of trait implementations, reserving a program function for each.
    fn register_implementations(&mut self, implementations: &Vec<ImplDefinition>) -> (r: Result<(), Error>)
        ensures
            match register_impls_from(
                old(self).env().traits,
                views(implementations@),
                0,
                ImplRegistry {
                    implemented: seq![],
                    methods: views(old(self).impl_methods@),
                    pending: views(old(self).pending_functions@),
                },
            ) {
                Ok(ir) => r is Ok && views(final(self).impl_methods@) == ir.methods && views(final(self).pending_functions@) == ir.pending,
                Err(m) => r matches Err(e) && e@ == m,
            },
            final(self).traits == old(self).traits,
            final(self).concrete_functions == old(self).concrete_functions,
            final(self).generic_functions == old(self).generic_functions,
            final(self).specializations == old(self).specializations,
            final(self).strings == old(self).strings,
    {
        let ghost traits = self.env().traits;
        let ghost impls = views(implementations@);
        let ghost start = ImplRegistry {
            implemented: seq![],
            methods: views(self.impl_methods@),
            pending: views(self.pending_functions@),
        };
        let mut implemented: Vec<(String, Type)> = Vec::new();
        assert(bindings(implemented@) =~= seq![]);
        let mut k: usize = 0;
        while k < implementations.len()
            invariant
                traits == self.env().traits,
                impls == views(implementations@),
                self.traits == old(self).traits,
                self.concrete_functions == old(self).concrete_functions,
                self.generic_functions == old(self).generic_functions,
                self.specializations == old(self).specializations,
                self.strings == old(self).strings,
                start == (ImplRegistry {
                    implemented: seq![],
                    methods: views(old(self).impl_methods@),
                    pending: views(old(self).pending_functions@),
                }),
                k <= implementations@.len(),
                register_impls_from(traits, impls, 0, start) == register_impls_from(
                    traits,
                    impls,
                    k as int,
                    ImplRegistry {
                        implemented: bindings(implemented@),
                        methods: views(self.impl_methods@),
                        pending: views(self.pending_functions@),
                    },
                ),
            decreases implementations@.len() - k,
        {
            let implementation = &implementations[k];
            let ghost imp = implementation@;
            assert(impls[k as int] == imp);
            let ti = match self.find_trait(implementation.trait_name.as_str()) {
                Some(i) => i,
                None => {
                    return Err(Error::new(join3("unknown trait `", implementation.trait_name.as_str(), "` in implementation")));
                },
            };
            let ghost t = traits[ti as int];
            assert(t == self.traits@[ti as int]@);
            if has_pair(&implemented, implementation.trait_name.as_str(), &implementation.for_type) {
                let type_text = implementation.for_type.text();
                return Err(Error::new(join5(
                    "trait `",
                    implementation.trait_name.as_str(),
                    "` is implemented more than once for `",
                    type_text.as_str(),
                    "`",
                )));
            }
            match repeated_definition(&implementation.methods) {
                Some(i) => {
                    return Err(Error::new(join3("method `", implementation.methods[i].name.as_str(), "` is implemented more than once")));
                },
                None => {},
            }
            let ghost methods0 = views(self.impl_methods@);
            let ghost pending0 = views(self.pending_functions@);
            let mut j: usize = 0;
            while j < self.traits[ti].methods.len()
                invariant
                    traits == self.env().traits,
                    impls == views(implementations@),
                    self.traits == old(self).traits,
                    self.concrete_functions == old(self).concrete_functions,
                    self.generic_functions == old(self).generic_functions,
                    self.specializations == old(self).specializations,
                    self.strings == old(self).strings,
                    ti < self.traits@.len(),
                    t == self.traits@[ti as int]@,
                    imp == implementation@,
                    k < implementations@.len(),
                    impls[k as int] == imp,
                    start == (ImplRegistry {
                        implemented: seq![],
                        methods: views(old(self).impl_methods@),
                        pending: views(old(self).pending_functions@),
                    }),
                    register_impls_from(traits, impls, 0, start) == register_impls_from(
                        traits,
                        impls,
                        k as int,
                        ImplRegistry { implemented: bindings(implemented@), methods: methods0, pending: pending0 },
                    ),
                    index_of(trait_names(traits), imp.trait_name) == Some(ti as int),
                    !bindings(implemented@).contains((imp.trait_name, imp.for_type)),
                    repeat_from(function_names(imp.methods), 0) is None,
                    j <= t.methods.len(),
                    signatures_from(imp, t, 0, methods0, pending0) == signatures_from(
                        imp,
                        t,
                        j as int,
                        views(self.impl_methods@),
                        views(self.pending_functions@),
                    ),
                decreases t.methods.len() - j,
            {
                let signature = self.traits[ti].methods[j].duplicate();
                assert(t.methods[j as int] == signature@);
                let di = match find_definition(&implementation.methods, signature.name.as_str()) {
                    Some(i) => i,
                    None => {
                        let type_text = implementation.for_type.text();
                        let mut message = join5(
                            "implementation of `",
                            implementation.trait_name.as_str(),
                            "` for `",
                            type_text.as_str(),
                            "` is missing method `",
                        );
                        message.append(signature.name.as_str());
                        message.append("`");
                        return Err(Error::new(message));
                    },
                };
                let definition = &implementation.methods[di];
                assert(imp.methods[di as int] == definition@);
                let expected_parameters = self_parameters(&signature, &implementation.for_type);
                let actual_parameters = parameter_types(&definition.parameters);
                let expected_return = replace_self(&signature.return_type, &implementation.for_type);
                if !same_types(&actual_parameters, &expected_parameters) || !definition.return_type.same(&expected_return) {
                    let type_text = implementation.for_type.text();
                    return Err(Error::new(join7(
                        "method `",
                        signature.name.as_str(),
                        "` does not match trait `",
                        implementation.trait_name.as_str(),
                        "` for `",
                        type_text.as_str(),
                        "`",
                    )));
                }
                let type_text = implementation.for_type.text();
                let mut symbol = join5("kal.impl.", implementation.trait_name.as_str(), ".", type_text.as_str(), ".");
                symbol.append(signature.name.as_str());
                let ghost methods_before = views(self.impl_methods@);
                let function = self.reserve_function(symbol, actual_parameters, definition.return_type.duplicate());
                let method = ImplMethod {
                    trait_name: implementation.trait_name.clone(),
                    for_type: implementation.for_type.duplicate(),
                    signature,
                    definition: definition.duplicate(),
                    function,
                };
                let ghost mv = method@;
                self.impl_methods.push(method);
                assert(views(self.impl_methods@) =~= methods_before.push(mv));
                j += 1;
            }
            match undeclared_method(implementation, &self.traits[ti]) {
                Some(i) => {
                    return Err(Error::new(join5(
                        "method `",
                        implementation.methods[i].name.as_str(),
                        "` is not declared by trait `",
                        implementation.trait_name.as_str(),
                        "`",
                    )));
                },
                None => {},
            }
            let ghost before = bindings(implemented@);
            implemented.push((implementation.trait_name.clone(), implementation.for_type.duplicate()));
            assert(bindings(implemented@) =~= before.push((imp.trait_name, imp.for_type)));
            k += 1;
        }
        Ok(())
    }

    /// Registers the declarations: trait names must be unique, function names must be
    /// unique, and implementations must match their traits.
    fn new(declarations: Declarations) -> (r: Result<Analyzer, Error>)
        requires
            decls_scoped(declarations@),
        ensures
            match setup(declarations@) {
                Ok(st) => r matches Ok(a) && a.env() == st.env && views(a.pending_functions@) == st.pending
                    && a.specializations@.len() == 0 && a.strings@.len() == 0 && a.ready(),
                Err(m) => r matches Err(e) && e@ == m,
            },
    {
        let ghost d = declarations@;
        if traits_repeat(&declarations.traits) {
            return Err(error("trait names must be unique"));
        }
        let Declarations { traits, implementations, functions } = declarations;
        let mut analyzer = Analyzer {
            traits,
            concrete_functions: Vec::new(),
            generic_functions: Vec::new(),
            impl_methods: Vec::new(),
            pending_functions: Vec::new(),
            specializations: Vec::new(),
            strings: Vec::new(),
        };
        let ghost start = Registry { concrete: seq![], generic: seq![], pending: seq![] };
        assert(views(analyzer.concrete_functions@) =~= start.concrete);
        assert(views(analyzer.generic_functions@) =~= start.generic);
        assert(views(analyzer.pending_functions@) =~= start.pending);
        let mut k: usize = 0;
        while k < functions.len()
            invariant
                d == declarations@,
                d.functions == views(functions@),
                d.traits == views(analyzer.traits@),
                d.implementations == views(implementations@),
                !has_repeat(trait_names(d.traits)),
                analyzer.impl_methods@.len() == 0,
                analyzer.specializations@.len() == 0,
                analyzer.strings@.len() == 0,
                k <= functions@.len(),
                setup(d) == finish_setup(d, register_functions_from(d.functions, 0, start)),
                register_functions_from(d.functions, 0, start) == register_functions_from(
                    d.functions,
                    k as int,
                    Registry {
                        concrete: views(analyzer.concrete_functions@),
                        generic: views(analyzer.generic_functions@),
                        pending: views(analyzer.pending_functions@),
                    },
                ),
                start == (Registry { concrete: seq![], generic: seq![], pending: seq![] }),
            decreases functions@.len() - k,
        {
            let definition = &functions[k];
            let ghost f = definition@;
            assert(d.functions[k as int] == f);
            let ghost cn = concrete_names(analyzer.env().concrete);
            let ghost gn = function_names(analyzer.env().generic);
            let in_concrete = analyzer.find_concrete(definition.name.as_str()).is_some();
            let in_generic = analyzer.find_generic(definition.name.as_str()).is_some();
            proof {
                lemma_index_from(cn, f.name, 0);
                lemma_index_from(gn, f.name, 0);
                if let Some(i) = index_of(cn, f.name) {
                    assert(cn[i] == f.name);
                    assert(cn.contains(f.name));
                }
                if let Some(i) = index_of(gn, f.name) {
                    assert(gn[i] == f.name);
                    assert(gn.contains(f.name));
                }
            }
            if in_concrete || in_generic {
                return Err(Error::new(join3("function `", definition.name.as_str(), "` is defined more than once")));
            }
            if definition.type_parameters.len() == 0 {
                let symbol = if same_text(definition.name.as_str(), "main") {
                    owned("main")
                } else {
                    join2("kal.fn.", definition.name.as_str())
                };
                let ghost concrete_before = views(analyzer.concrete_functions@);
                let function = analyzer.reserve_function(symbol, parameter_types(&definition.parameters), definition.return_type.duplicate());
                let c = ConcreteDefinition { definition: definition.duplicate(), function };
                let ghost cv = c@;
                analyzer.concrete_functions.push(c);
                assert(views(analyzer.concrete_functions@) =~= concrete_before.push(cv));
            } else {
                let ghost generic_before = views(analyzer.generic_functions@);
                analyzer.generic_functions.push(definition.duplicate());
                assert(views(analyzer.generic_functions@) =~= generic_before.push(f));
            }
            k += 1;
        }
        assert(views(analyzer.impl_methods@) =~= seq![]);
        match analyzer.register_implementations(&implementations) {
            Ok(_) => {},
            Err(e) => {
                return Err(e);
            },
        }
        proof {
            lemma_setup_ready(d);
            assert(views(analyzer.specializations@) =~= seq![]);
        }
        Ok(analyzer)
    }
}

// ---------------------------------------------------------------------------
// The state that lowering keeps
// ---------------------------------------------------------------------------

/// The signatures of reserved program functions.
pub open spec fn pending_signatures(ps: Seq<PendingDecl>) -> Seq<Signature> {
    Seq::new(ps.len(), |i: int| Signature { parameters: ps[i].parameters, return_type: ps[i].return_type })
}

/// Whether parameter and return types are all concrete.
pub open spec fn concrete_signature(parameters: Seq<Ty>, return_type: Ty) -> bool {
    &&& forall|j: int| 0 <= j < parameters.len() ==> is_concrete(#[trigger] parameters[j])
    &&& is_concrete(return_type)
}

/// Whether a non-generic function's program function is reserved with its symbol and
/// its own signature.
pub open spec fn concrete_ready(c: ConcreteDecl, pending: Seq<PendingDecl>) -> bool {
    &&& 0 <= c.function < pending.len()
    &&& pending[c.function].symbol == function_symbol(c.definition.name)
    &&& pending[c.function].parameters == param_types(c.definition.parameters)
    &&& pending[c.function].return_type == c.definition.return_type
    &&& c.definition.type_parameters.len() == 0
    &&& decl_scoped(c.definition)
}

/// Whether an implemented method's program function is reserved with its signature.
pub open spec fn method_ready(m: ImplMethodDecl, pending: Seq<PendingDecl>) -> bool {
    &&& 0 <= m.function < pending.len()
    &&& pending[m.function].parameters == param_types(m.definition.parameters)
    &&& pending[m.function].return_type == m.definition.return_type
    &&& m.definition.type_parameters.len() == 0
    &&& decl_scoped(m.definition)
}

/// The parameter types of a generic function under a substitution.
pub open spec fn instance_parameters(g: FunctionDecl, s: Seq<(Seq<char>, Ty)>) -> Seq<Ty> {
    Seq::new(g.parameters.len(), |x: int| substituted(g.parameters[x].ty, s))
}

/// Whether a specialization's program function is reserved with the signature of its
/// generic function under its substitution, which binds each type parameter to the
/// matching type argument.
pub open spec fn specialization_ready(sp: SpecializationDecl, generic: Seq<FunctionDecl>, pending: Seq<PendingDecl>) -> bool {
    &&& 0 <= sp.function < pending.len()
    &&& values_concrete(sp.substitution)
    &&& match index_of(function_names(generic), sp.name) {
        Some(gi) => {
            &&& sp.type_arguments.len() == generic[gi].type_parameters.len()
            &&& forall|k: int|
                0 <= k < generic[gi].type_parameters.len() ==> bound(sp.substitution, #[trigger] generic[gi].type_parameters[k])
                    == Some(sp.type_arguments[k])
            &&& pending[sp.function].parameters == instance_parameters(generic[gi], sp.substitution)
            &&& pending[sp.function].return_type == substituted(generic[gi].return_type, sp.substitution)
        },
        None => false,
    }
}

/// Whether a reserved program function has a concrete signature and, once lowered, a
/// well-typed body of its return type.
pub open spec fn pending_ready(p: PendingDecl, sigs: Seq<Signature>, strings: nat) -> bool {
    &&& concrete_signature(p.parameters, p.return_type)
    &&& (p.body matches Some(b) ==> well_typed(b, p.parameters, sigs, strings) && b.ty == p.return_type)
}

/// The invariant of the checker's state during lowering.
pub open spec fn state_ready(env: Env, pending: Seq<PendingDecl>, specs: Seq<SpecializationDecl>, strings: nat) -> bool {
    &&& forall|i: int| 0 <= i < env.concrete.len() ==> concrete_ready(#[trigger] env.concrete[i], pending)
    &&& forall|i: int| 0 <= i < env.impls.len() ==> method_ready(#[trigger] env.impls[i], pending)
    &&& forall|i: int| 0 <= i < env.generic.len() ==> decl_scoped(#[trigger] env.generic[i])
    &&& forall|i: int| 0 <= i < specs.len() ==> specialization_ready(#[trigger] specs[i], env.generic, pending)
    &&& forall|i: int| 0 <= i < pending.len() ==> pending_ready(#[trigger] pending[i], pending_signatures(pending), strings)
    &&& distinct_specializations(specs)
}

/// Whether no two specializations are of the same generic function at the same type
/// arguments.
pub open spec fn distinct_specializations(specs: Seq<SpecializationDecl>) -> bool {
    forall|i: int, j: int|
        0 <= i < j < specs.len() ==> !(#[trigger] specs[i].name == #[trigger] specs[j].name && specs[i].type_arguments
            == specs[j].type_arguments)
}

/// Whether a reserved program function has a concrete signature and no body yet.
pub open spec fn pending_fresh(p: PendingDecl) -> bool {
    concrete_signature(p.parameters, p.return_type) && p.body is None
}

/// Whether registered functions are ready for lowering.
pub open spec fn registry_ready(r: Registry) -> bool {
    &&& forall|i: int| 0 <= i < r.concrete.len() ==> concrete_ready(#[trigger] r.concrete[i], r.pending)
    &&& forall|i: int| 0 <= i < r.generic.len() ==> decl_scoped(#[trigger] r.generic[i])
    &&& forall|i: int| 0 <= i < r.pending.len() ==> pending_fresh(#[trigger] r.pending[i])
}

/// A non-generic, well-scoped function has a concrete signature.
proof fn lemma_nongeneric_concrete(f: FunctionDecl)
    requires
        decl_scoped(f),
        f.type_parameters.len() == 0,
    ensures
        concrete_signature(param_types(f.parameters), f.return_type),
{
    assert(f.type_parameters =~= seq![]);
    assert forall|j: int| 0 <= j < param_types(f.parameters).len() implies is_concrete(#[trigger] param_types(f.parameters)[j]) by {
        lemma_unscoped_concrete(f.parameters[j].ty);
    }
    lemma_unscoped_concrete(f.return_type);
}

/// Readiness of a reserved function survives the reservation of more functions.
proof fn lemma_concrete_ready_grows(c: ConcreteDecl, pending: Seq<PendingDecl>, more: Seq<PendingDecl>)
    requires
        concrete_ready(c, pending),
        is_prefix(pending, more),
    ensures
        concrete_ready(c, more),
{
    assert(more[c.function] == pending[c.function]);
}

/// Readiness of an implemented method survives the reservation of more functions.
proof fn lemma_method_ready_grows(m: ImplMethodDecl, pending: Seq<PendingDecl>, more: Seq<PendingDecl>)
    requires
        method_ready(m, pending),
        is_prefix(pending, more),
    ensures
        method_ready(m, more),
{
    assert(more[m.function] == pending[m.function]);
}

/// Registering functions keeps the registry ready.
proof fn lemma_register_functions_ready(fs: Seq<FunctionDecl>, k: int, r: Registry)
    requires
        0 <= k <= fs.len(),
        forall|i: int| 0 <= i < fs.len() ==> decl_scoped(#[trigger] fs[i]),
        registry_ready(r),
    ensures
        register_functions_from(fs, k, r) matches Ok(r2) ==> registry_ready(r2),
    decreases fs.len() - k,
{
    if k < fs.len() {
        let f = fs[k];
        if !(concrete_names(r.concrete).contains(f.name) || function_names(r.generic).contains(f.name)) {
            if f.type_parameters.len() == 0 {
                let pending = PendingDecl {
                    symbol: function_symbol(f.name),
                    parameters: param_types(f.parameters),
                    return_type: f.return_type,
                    body: None,
                };
                let r2 = Registry {
                    concrete: r.concrete.push(ConcreteDecl { definition: f, function: r.pending.len() as int }),
                    generic: r.generic,
                    pending: r.pending.push(pending),
                };
                lemma_nongeneric_concrete(f);
                assert forall|i: int| 0 <= i < r2.concrete.len() implies concrete_ready(#[trigger] r2.concrete[i], r2.pending) by {
                    if i < r.concrete.len() {
                        assert(r2.concrete[i] == r.concrete[i]);
                        lemma_concrete_ready_grows(r.concrete[i], r.pending, r2.pending);
                    } else {
                        assert(r2.pending[r.pending.len() as int] == pending);
                    }
                }
                assert forall|i: int| 0 <= i < r2.pending.len() implies pending_fresh(#[trigger] r2.pending[i]) by {
                    if i < r.pending.len() {
                        assert(r2.pending[i] == r.pending[i]);
                    }
                }
                lemma_register_functions_ready(fs, k + 1, r2);
            } else {
                let r2 = Registry { generic: r.generic.push(f), ..r };
                assert forall|i: int| 0 <= i < r2.generic.len() implies decl_scoped(#[trigger] r2.generic[i]) by {
                    if i < r.generic.len() {
                        assert(r2.generic[i] == r.generic[i]);
                    }
                }
                lemma_register_functions_ready(fs, k + 1, r2);
            }
        }
    }
}

/// Registering the methods of one implementation keeps reserved functions ready.
proof fn lemma_signatures_ready(imp: ImplDecl, t: TraitDecl, j: int, methods: Seq<ImplMethodDecl>, pending: Seq<PendingDecl>)
    requires
        impl_scoped(imp),
        0 <= j <= t.methods.len(),
        forall|i: int| 0 <= i < methods.len() ==> method_ready(#[trigger] methods[i], pending),
        forall|i: int| 0 <= i < pending.len() ==> pending_fresh(#[trigger] pending[i]),
    ensures
        signatures_from(imp, t, j, methods, pending) matches Ok((ms, ps)) ==> {
            &&& forall|i: int| 0 <= i < ms.len() ==> method_ready(#[trigger] ms[i], ps)
            &&& forall|i: int| 0 <= i < ps.len() ==> pending_fresh(#[trigger] ps[i])
            &&& is_prefix(pending, ps)
        },
    decreases t.methods.len() - j,
{
    if j < t.methods.len() {
        let sig = t.methods[j];
        if let Some(di) = index_of(function_names(imp.methods), sig.name) {
            lemma_index_from(function_names(imp.methods), sig.name, 0);
            let def = imp.methods[di];
            let actual = param_types(def.parameters);
            if !(actual != expected_parameters(sig, imp.for_type) || def.return_type != self_replaced(sig.return_type, imp.for_type)) {
                let method = ImplMethodDecl {
                    trait_name: imp.trait_name,
                    for_type: imp.for_type,
                    signature: sig,
                    definition: def,
                    function: pending.len() as int,
                };
                let reserved = PendingDecl {
                    symbol: impl_symbol(imp.trait_name, imp.for_type, sig.name),
                    parameters: actual,
                    return_type: def.return_type,
                    body: None,
                };
                let ms = methods.push(method);
                let ps = pending.push(reserved);
                assert(decl_scoped(def) && def.type_parameters.len() == 0);
                lemma_nongeneric_concrete(def);
                assert forall|i: int| 0 <= i < ms.len() implies method_ready(#[trigger] ms[i], ps) by {
                    if i < methods.len() {
                        assert(ms[i] == methods[i]);
                        lemma_method_ready_grows(methods[i], pending, ps);
                    } else {
                        assert(ps[pending.len() as int] == reserved);
                    }
                }
                assert forall|i: int| 0 <= i < ps.len() implies pending_fresh(#[trigger] ps[i]) by {
                    if i < pending.len() {
                        assert(ps[i] == pending[i]);
                    }
                }
                lemma_signatures_ready(imp, t, j + 1, ms, ps);
                if let Ok((ms2, ps2)) = signatures_from(imp, t, j + 1, ms, ps) {
                    assert forall|i: int| 0 <= i < pending.len() implies pending[i] == ps2[i] by {
                        assert(ps[i] == pending[i]);
                    }
                }
            }
        }
    }
}

/// Registering implementations keeps reserved functions ready, those of non-generic
/// functions included.
proof fn lemma_register_impls_ready(traits: Seq<TraitDecl>, impls: Seq<ImplDecl>, k: int, r: ImplRegistry, concrete: Seq<ConcreteDecl>)
    requires
        0 <= k <= impls.len(),
        forall|i: int| 0 <= i < impls.len() ==> impl_scoped(#[trigger] impls[i]),
        forall|i: int| 0 <= i < r.methods.len() ==> method_ready(#[trigger] r.methods[i], r.pending),
        forall|i: int| 0 <= i < r.pending.len() ==> pending_fresh(#[trigger] r.pending[i]),
        forall|i: int| 0 <= i < concrete.len() ==> concrete_ready(#[trigger] concrete[i], r.pending),
    ensures
        register_impls_from(traits, impls, k, r) matches Ok(r2) ==> {
            &&& forall|i: int| 0 <= i < r2.methods.len() ==> method_ready(#[trigger] r2.methods[i], r2.pending)
            &&& forall|i: int| 0 <= i < r2.pending.len() ==> pending_fresh(#[trigger] r2.pending[i])
            &&& forall|i: int| 0 <= i < concrete.len() ==> concrete_ready(#[trigger] concrete[i], r2.pending)
        },
    decreases impls.len() - k,
{
    if k < impls.len() {
        let imp = impls[k];
        if let Some(ti) = index_of(trait_names(traits), imp.trait_name) {
            lemma_index_from(trait_names(traits), imp.trait_name, 0);
            let t = traits[ti];
            lemma_signatures_ready(imp, t, 0, r.methods, r.pending);
            if let Ok((ms, ps)) = signatures_from(imp, t, 0, r.methods, r.pending) {
                let r2 = ImplRegistry { implemented: r.implemented.push((imp.trait_name, imp.for_type)), methods: ms, pending: ps };
                assert forall|i: int| 0 <= i < concrete.len() implies concrete_ready(#[trigger] concrete[i], ps) by {
                    lemma_concrete_ready_grows(concrete[i], r.pending, ps);
                }
                lemma_register_impls_ready(traits, impls, k + 1, r2, concrete);
            }
        }
    }
}

/// The registration of well-scoped declarations leaves the checker's state ready.
proof fn lemma_setup_ready(d: Decls)
    requires
        decls_scoped(d),
        setup(d) is Ok,
    ensures
        state_ready(setup(d)->Ok_0.env, setup(d)->Ok_0.pending, seq![], 0),
{
    let start = Registry { concrete: seq![], generic: seq![], pending: seq![] };
    lemma_register_functions_ready(d.functions, 0, start);
    let reg = register_functions_from(d.functions, 0, start)->Ok_0;
    let ir0 = ImplRegistry { implemented: seq![], methods: seq![], pending: reg.pending };
    lemma_register_impls_ready(d.traits, d.implementations, 0, ir0, reg.concrete);
    let st = setup(d)->Ok_0;
    assert forall|i: int| 0 <= i < st.pending.len() implies pending_ready(
        #[trigger] st.pending[i],
        pending_signatures(st.pending),
        0,
    ) by {
        assert(pending_fresh(st.pending[i]));
    }
}

impl Analyzer {
    /// The checker's state is ready for lowering.
    spec fn ready(&self) -> bool {
        state_ready(self.env(), views(self.pending_functions@), views(self.specializations@), self.strings@.len())
    }
}

/// Readiness survives the addition of strings.
proof fn lemma_ready_more_strings(env: Env, pending: Seq<PendingDecl>, specs: Seq<SpecializationDecl>, strings: nat, more: nat)
    requires
        state_ready(env, pending, specs, strings),
        strings <= more,
    ensures
        state_ready(env, pending, specs, more),
{
    let sigs = pending_signatures(pending);
    assert forall|i: int| 0 <= i < pending.len() implies pending_ready(#[trigger] pending[i], sigs, more) by {
        if let Some(b) = pending[i].body {
            lemma_well_typed_grows(b, pending[i].parameters, sigs, strings, sigs, more);
        }
    }
}

/// Readiness survives the reservation of a fresh program function.
proof fn lemma_ready_after_reserve(env: Env, pending: Seq<PendingDecl>, specs: Seq<SpecializationDecl>, strings: nat, p: PendingDecl)
    requires
        state_ready(env, pending, specs, strings),
        pending_fresh(p),
    ensures
        state_ready(env, pending.push(p), specs, strings),
{
    let more = pending.push(p);
    let sigs = pending_signatures(pending);
    let more_sigs = pending_signatures(more);
    assert(is_prefix(pending, more)) by {
        assert forall|i: int| 0 <= i < pending.len() implies pending[i] == more[i] by {}
    }
    assert(is_prefix(sigs, more_sigs)) by {
        assert forall|i: int| 0 <= i < sigs.len() implies sigs[i] == more_sigs[i] by {
            assert(more[i] == pending[i]);
        }
    }
    assert forall|i: int| 0 <= i < env.concrete.len() implies concrete_ready(#[trigger] env.concrete[i], more) by {
        lemma_concrete_ready_grows(env.concrete[i], pending, more);
    }
    assert forall|i: int| 0 <= i < env.impls.len() implies method_ready(#[trigger] env.impls[i], more) by {
        lemma_method_ready_grows(env.impls[i], pending, more);
    }
    assert forall|i: int| 0 <= i < specs.len() implies specialization_ready(#[trigger] specs[i], env.generic, more) by {
        assert(more[specs[i].function] == pending[specs[i].function]);
    }
    assert forall|i: int| 0 <= i < more.len() implies pending_ready(#[trigger] more[i], more_sigs, strings) by {
        if i < pending.len() {
            assert(more[i] == pending[i]);
            if let Some(b) = pending[i].body {
                lemma_well_typed_grows(b, pending[i].parameters, sigs, strings, more_sigs, strings);
            }
        }
    }
}

/// Readiness survives the recording of a ready specialization.
proof fn lemma_ready_after_specialization(env: Env, pending: Seq<PendingDecl>, specs: Seq<SpecializationDecl>, strings: nat, sp: SpecializationDecl)
    requires
        state_ready(env, pending, specs, strings),
        specialization_ready(sp, env.generic, pending),
        specialization_index(specs, sp.name, sp.type_arguments, 0) is None,
    ensures
        state_ready(env, pending, specs.push(sp), strings),
{
    let more = specs.push(sp);
    assert forall|i: int| 0 <= i < more.len() implies specialization_ready(#[trigger] more[i], env.generic, pending) by {
        if i < specs.len() {
            assert(more[i] == specs[i]);
        }
    }
    lemma_specialization_index(specs, sp.name, sp.type_arguments, 0);
    assert forall|i: int, j: int| 0 <= i < j < more.len() implies !(#[trigger] more[i].name == #[trigger] more[j].name
        && more[i].type_arguments == more[j].type_arguments) by {
        assert(more[i] == specs[i]);
        if j < specs.len() {
            assert(more[j] == specs[j]);
        }
    }
}

/// Where the search for a specialization finds nothing, no specialization matches.
proof fn lemma_specialization_index(specs: Seq<SpecializationDecl>, name: Seq<char>, targs: Seq<Ty>, k: int)
    requires
        0 <= k <= specs.len(),
        specialization_index(specs, name, targs, k) is None,
    ensures
        forall|j: int| k <= j < specs.len() ==> !(#[trigger] specs[j].name == name && specs[j].type_arguments == targs),
    decreases specs.len() - k,
{
    if k < specs.len() {
        lemma_specialization_index(specs, name, targs, k + 1);
    }
}

/// Readiness survives giving a reserved function a well-typed body of its return type.
proof fn lemma_ready_after_body(env: Env, pending: Seq<PendingDecl>, specs: Seq<SpecializationDecl>, strings: nat, f: int, b: Typed)
    requires
        state_ready(env, pending, specs, strings),
        0 <= f < pending.len(),
        well_typed(b, pending[f].parameters, pending_signatures(pending), strings),
        b.ty == pending[f].return_type,
    ensures
        state_ready(env, pending.update(f, PendingDecl { body: Some(b), ..pending[f] }), specs, strings),
{
    let more = pending.update(f, PendingDecl { body: Some(b), ..pending[f] });
    assert(pending_signatures(more) =~= pending_signatures(pending));
    assert forall|i: int| 0 <= i < env.concrete.len() implies concrete_ready(#[trigger] env.concrete[i], more) by {
        assert(concrete_ready(env.concrete[i], pending));
    }
    assert forall|i: int| 0 <= i < env.impls.len() implies method_ready(#[trigger] env.impls[i], more) by {
        assert(method_ready(env.impls[i], pending));
    }
    assert forall|i: int| 0 <= i < specs.len() implies specialization_ready(#[trigger] specs[i], env.generic, more) by {
        assert(specialization_ready(specs[i], env.generic, pending));
    }
    assert forall|i: int| 0 <= i < more.len() implies pending_ready(#[trigger] more[i], pending_signatures(more), strings) by {
        assert(pending_ready(pending[i], pending_signatures(pending), strings));
    }
}

/// A binding in a substitution whose values are concrete is concrete.
proof fn lemma_bound_concrete(s: Seq<(Seq<char>, Ty)>, n: Seq<char>)
    requires
        values_concrete(s),
    ensures
        bound(s, n) matches Some(u) ==> is_concrete(u),
{
    lemma_bound_value(s, n);
    if let Some(u) = bound(s, n) {
        let i = choose|i: int| 0 <= i < s.len() && s[i].1 == u;
        assert(is_concrete(s[i].1));
    }
}

/// Unifying parameter types with concrete argument types extends the substitution
/// with concrete bindings and makes each parameter type the argument type.
proof fn lemma_unified_from(ps: Seq<Param>, args: Seq<Ty>, k: int, s: Seq<(Seq<char>, Ty)>)
    requires
        ps.len() == args.len(),
        0 <= k <= ps.len(),
        forall|j: int| 0 <= j < args.len() ==> is_concrete(#[trigger] args[j]),
        values_concrete(s),
        unified_from(ps, args, k, s) is Some,
    ensures
        is_prefix(s, unified_from(ps, args, k, s)->Some_0),
        values_concrete(unified_from(ps, args, k, s)->Some_0),
        forall|j: int| k <= j < ps.len() ==> substituted(#[trigger] ps[j].ty, unified_from(ps, args, k, s)->Some_0) == args[j],
    decreases ps.len() - k,
{
    if k < ps.len() {
        let s2 = unified(ps[k].ty, args[k], s)->Some_0;
        crate::types::lemma_unified(ps[k].ty, args[k], s);
        lemma_unified_from(ps, args, k + 1, s2);
        let res = unified_from(ps, args, k + 1, s2)->Some_0;
        crate::types::lemma_substituted_extended(ps[k].ty, s2, res);
        assert(is_prefix(s, res)) by {
            assert forall|i: int| 0 <= i < s.len() implies s[i] == res[i] by {
                assert(s[i] == s2[i]);
            }
        }
    }
}

/// When no type parameter is left unbound, every one is bound.
proof fn lemma_first_unbound(tps: Seq<Seq<char>>, s: Seq<(Seq<char>, Ty)>, k: int)
    requires
        0 <= k <= tps.len(),
        first_unbound(tps, s, k) is None,
    ensures
        forall|j: int| k <= j < tps.len() ==> bound(s, #[trigger] tps[j]) is Some,
    decreases tps.len() - k,
{
    if k < tps.len() {
        lemma_first_unbound(tps, s, k + 1);
    }
}

/// The parameter and return types of a non-generic function do not change under the
/// empty substitution.
proof fn lemma_instance_nothing(f: FunctionDecl)
    ensures
        instance_parameters(f, seq![]) == param_types(f.parameters),
        substituted(f.return_type, seq![]) == f.return_type,
{
    assert forall|x: int| 0 <= x < f.parameters.len() implies #[trigger] instance_parameters(f, seq![])[x] == param_types(f.parameters)[x] by {
        crate::types::lemma_substituted_nothing(f.parameters[x].ty);
    }
    assert(instance_parameters(f, seq![]) =~= param_types(f.parameters));
    crate::types::lemma_substituted_nothing(f.return_type);
}

/// Substitutions that bind a function's type parameters alike give it the same signature.
proof fn lemma_instance_agree(g: FunctionDecl, s1: Seq<(Seq<char>, Ty)>, s2: Seq<(Seq<char>, Ty)>)
    requires
        decl_scoped(g),
        forall|k: int| 0 <= k < g.type_parameters.len() ==> bound(s1, #[trigger] g.type_parameters[k]) == bound(s2, g.type_parameters[k]),
    ensures
        instance_parameters(g, s1) == instance_parameters(g, s2),
        substituted(g.return_type, s1) == substituted(g.return_type, s2),
{
    assert forall|x: int| 0 <= x < g.parameters.len() implies #[trigger] instance_parameters(g, s1)[x] == instance_parameters(g, s2)[x] by {
        crate::types::lemma_substituted_agree(g.parameters[x].ty, g.type_parameters, s1, s2);
    }
    assert(instance_parameters(g, s1) =~= instance_parameters(g, s2));
    crate::types::lemma_substituted_agree(g.return_type, g.type_parameters, s1, s2);
}

/// A generic function whose type parameters are all bound to concrete types has a
/// concrete signature under the substitution.
proof fn lemma_instance_concrete(g: FunctionDecl, s: Seq<(Seq<char>, Ty)>)
    requires
        decl_scoped(g),
        values_concrete(s),
        forall|k: int| 0 <= k < g.type_parameters.len() ==> bound(s, #[trigger] g.type_parameters[k]) is Some,
    ensures
        concrete_signature(instance_parameters(g, s), substituted(g.return_type, s)),
{
    assert forall|k: int| 0 <= k < g.type_parameters.len() implies (bound(s, #[trigger] g.type_parameters[k]) matches Some(u) && is_concrete(u)) by {
        lemma_bound_concrete(s, g.type_parameters[k]);
    }
    assert forall|x: int| 0 <= x < instance_parameters(g, s).len() implies is_concrete(#[trigger] instance_parameters(g, s)[x]) by {
        lemma_substituted_concrete(g.parameters[x].ty, g.type_parameters, s);
    }
    lemma_substituted_concrete(g.return_type, g.type_parameters, s);
}

// ---------------------------------------------------------------------------
// Lowering
// ---------------------------------------------------------------------------

/// Whether two reserved program functions have the same symbol and signature.
pub open spec fn same_reservation(a: PendingDecl, b: PendingDecl) -> bool {
    a.symbol == b.symbol && a.parameters == b.parameters && a.return_type == b.return_type
}

/// The types of a lowering scope's parameters, by index.
pub open spec fn scope_types(b: Seq<(Seq<char>, Ty)>) -> Seq<Ty> {
    Seq::new(b.len(), |i: int| b[i].1)
}

/// The names of a lowering scope's parameters, by index.
pub open spec fn scope_names(b: Seq<(Seq<char>, Ty)>) -> Seq<Seq<char>> {
    Seq::new(b.len(), |i: int| b[i].0)
}

/// Whether a lowered expression is well typed in a function whose parameters are
/// `scope`, and has a concrete type.
pub open spec fn lowered_ok(e: Typed, scope: Seq<(Seq<char>, Ty)>, sigs: Seq<Signature>, strings: nat) -> bool {
    well_typed(e, scope_types(scope), sigs, strings) && is_concrete(e.ty)
}

/// A typed expression of type `ty` and kind `kind`.
fn typed(ty: Type, kind: ExpressionKind) -> (e: TypedExpression)
    ensures
        e.ty == ty,
        e.kind == kind,
{
    TypedExpression { ty, kind }
}

/// The index of the first parameter of `scope` named `name`.
fn find_binding(scope: &Vec<(String, Type)>, name: &str) -> (r: Option<usize>)
    ensures
        index_value(r) == index_of(scope_names(bindings(scope@)), name@),
        r matches Some(i) ==> i < scope@.len(),
{
    let ghost names = scope_names(bindings(scope@));
    let mut i: usize = 0;
    while i < scope.len()
        invariant
            names == scope_names(bindings(scope@)),
            i <= scope@.len(),
            forall|j: int| 0 <= j < i ==> names[j] != name@,
        decreases scope@.len() - i,
    {
        assert(names[i as int] == scope@[i as int].0@);
        if same_text(scope[i].0.as_str(), name) {
            proof {
                lemma_index_of_found(names, name@, i as int);
            }
            return Some(i);
        }
        i += 1;
    }
    proof {
        lemma_index_of_absent(names, name@);
    }
    None
}

impl Analyzer {
    /// The part of the state that lowering changes.
    spec fn lowering(&self) -> Lowering {
        Lowering {
            pending: views(self.pending_functions@),
            specs: views(self.specializations@),
            strings: Seq::new(self.strings@.len(), |i: int| self.strings@[i]@),
        }
    }

    /// The signatures of the program functions reserved so far.
    spec fn sigs(&self) -> Seq<Signature> {
        pending_signatures(views(self.pending_functions@))
    }

    /// `later` is this state after more lowering: the declarations are the same, the
    /// reserved functions keep their symbols and signatures, and strings are only added.
    spec fn grown_into(&self, later: &Analyzer) -> bool {
        &&& later.traits == self.traits
        &&& later.concrete_functions == self.concrete_functions
        &&& later.generic_functions == self.generic_functions
        &&& later.impl_methods == self.impl_methods
        &&& self.pending_functions@.len() <= later.pending_functions@.len()
        &&& forall|i: int|
            0 <= i < self.pending_functions@.len() ==> same_reservation(
                #[trigger] self.pending_functions@[i]@,
                later.pending_functions@[i]@,
            )
        &&& self.strings@.len() <= later.strings@.len()
    }

    /// What is well typed now stays well typed as lowering goes on.
    proof fn lemma_grown_typed(&self, later: &Analyzer, e: Typed, params: Seq<Ty>)
        requires
            self.grown_into(later),
            well_typed(e, params, self.sigs(), self.strings@.len()),
        ensures
            well_typed(e, params, later.sigs(), later.strings@.len()),
    {
        assert(is_prefix(self.sigs(), later.sigs())) by {
            assert forall|i: int| 0 <= i < self.sigs().len() implies self.sigs()[i] == later.sigs()[i] by {
                assert(same_reservation(self.pending_functions@[i]@, later.pending_functions@[i]@));
            }
        }
        lemma_well_typed_grows(e, params, self.sigs(), self.strings@.len(), later.sigs(), later.strings@.len());
    }

    /// Whether the functions of `self` other than `except` have the same body, or
    /// none, in `later`.
    spec fn kept_bodies(&self, later: &Analyzer, except: int) -> bool {
        forall|i: int|
            0 <= i < self.pending_functions@.len() && i != except ==> (#[trigger] later.pending_functions@[i])@.body
                == self.pending_functions@[i]@.body
    }

    /// Growth is transitive.
    proof fn lemma_grown_trans(&self, middle: &Analyzer, later: &Analyzer)
        requires
            self.grown_into(middle),
            middle.grown_into(later),
        ensures
            self.grown_into(later),
    {
        assert forall|i: int| 0 <= i < self.pending_functions@.len() implies same_reservation(
            #[trigger] self.pending_functions@[i]@,
            later.pending_functions@[i]@,
        ) by {
            assert(same_reservation(self.pending_functions@[i]@, middle.pending_functions@[i]@));
            assert(same_reservation(middle.pending_functions@[i]@, later.pending_functions@[i]@));
        }
    }
}

// ---------------------------------------------------------------------------
// What lowering computes
// ---------------------------------------------------------------------------

/// What lowering changes: the reserved program functions, the specializations made,
/// and the strings recorded for printing, as UTF-8 bytes.
#[verifier::ext_equal]
pub struct Lowering {
    pub pending: Seq<PendingDecl>,
    pub specs: Seq<SpecializationDecl>,
    pub strings: Seq<Seq<u8>>,
}

/// The types of typed expressions.
pub open spec fn types_of(ts: Seq<Typed>) -> Seq<Ty> {
    Seq::new(ts.len(), |i: int| ts[i].ty)
}

/// The parameters of a definition as a lowering scope, with their types under `s`.
pub open spec fn definition_scope(d: FunctionDecl, s: Seq<(Seq<char>, Ty)>) -> Seq<(Seq<char>, Ty)> {
    Seq::new(d.parameters.len(), |x: int| (d.parameters[x].name, substituted(d.parameters[x].ty, s)))
}

/// How a function's body is named in a diagnostic.
pub open spec fn body_description(name: Seq<char>) -> Seq<char> {
    if name == "main"@ {
        "main body"@
    } else {
        "function `"@ + name + "` body"@
    }
}

/// The diagnostic for a body whose type is not its function's return type.
pub open spec fn body_mismatch(name: Seq<char>, actual: Ty, expected: Ty) -> Seq<char> {
    body_description(name) + " has type `"@ + type_text(actual) + "`, expected `"@ + type_text(expected) + "`"@
}

/// What lowering with a bound on the nesting of specializations gives when generic
/// function `name` must be specialized anew with no depth left. Lowering as deeply as
/// the specializations of a program nest (`lower_program`) never gives it.
pub open spec fn too_deep(name: Seq<char>) -> Seq<char> {
    "generic function `"@ + name + "` is specialized too deeply"@
}

/// The index of the specialization of `name` at `targs` among `specs[k..]`.
pub open spec fn specialization_index(specs: Seq<SpecializationDecl>, name: Seq<char>, targs: Seq<Ty>, k: int) -> Option<int>
    decreases specs.len() - k,
{
    if k < 0 || k >= specs.len() {
        None
    } else if specs[k].name == name && specs[k].type_arguments == targs {
        Some(k)
    } else {
        specialization_index(specs, name, targs, k + 1)
    }
}

/// The texts of the types `ts[..k]`, separated by `.`.
pub open spec fn joined_texts(ts: Seq<Ty>, k: int) -> Seq<char>
    decreases k,
{
    if k <= 0 {
        seq![]
    } else if k == 1 {
        type_text(ts[0])
    } else {
        joined_texts(ts, k - 1) + "."@ + type_text(ts[k - 1])
    }
}

/// The symbol of the specialization of `name` at `targs`.
pub open spec fn specialization_symbol(name: Seq<char>, targs: Seq<Ty>) -> Seq<char> {
    "kal.fn."@ + name + "."@ + joined_texts(targs, targs.len() as int)
}

/// The type arguments that a substitution gives a generic function's type parameters.
pub open spec fn type_arguments_of(g: FunctionDecl, s: Seq<(Seq<char>, Ty)>) -> Seq<Ty> {
    Seq::new(g.type_parameters.len(), |k: int| bound(s, g.type_parameters[k])->Some_0)
}

/// The indices, among `impls[j..]`, of the implemented methods named `name` whose
/// parameter types are `args`.
pub open spec fn method_matches(impls: Seq<ImplMethodDecl>, name: Seq<char>, args: Seq<Ty>, j: int) -> Seq<int>
    decreases impls.len() - j,
{
    if j < 0 || j >= impls.len() {
        seq![]
    } else if impls[j].signature.name == name && param_types(impls[j].definition.parameters) == args {
        seq![j] + method_matches(impls, name, args, j + 1)
    } else {
        method_matches(impls, name, args, j + 1)
    }
}

/// Lowering of the form `f` in a function whose parameters are `scope`, with `depth`
/// more levels of specialization allowed: the typed expression and the state after.
pub open spec fn lower_form(env: Env, st: Lowering, f: Form, scope: Seq<(Seq<char>, Ty)>, depth: nat) -> Result<(Typed, Lowering), Seq<char>>
    decreases depth, f, 3int, 0int,
{
    match f {
        Form::Integer(n) => Ok((Typed { ty: Ty::Int, kind: Kind::Integer(n) }, st)),
        Form::String(_) => Ok((Typed { ty: Ty::String, kind: Kind::String }, st)),
        Form::Symbol(name) => match index_of(scope_names(scope), name) {
            Some(i) => Ok((Typed { ty: scope[i].1, kind: Kind::Parameter(i) }, st)),
            None => Err("unknown name `"@ + name + "`"@),
        },
        Form::List(es) => match symbol_of(item(es, 0), "expression must begin with an operator"@) {
            Err(m) => Err(m),
            Ok(op) => if op == "do"@ {
                lower_do_form(env, st, es, scope, depth)
            } else if op == "print"@ {
                lower_print_form(st, es)
            } else if op == "+"@ {
                lower_add_form(env, st, es, scope, depth)
            } else {
                lower_call_form(env, st, op, es, scope, depth)
            },
        },
    }
}

/// Lowering of the forms `es[k..]` in order, after the typed expressions `done`.
pub open spec fn lower_list(env: Env, st: Lowering, es: Seq<Form>, k: int, done: Seq<Typed>, scope: Seq<(Seq<char>, Ty)>, depth: nat) -> Result<(Seq<Typed>, Lowering), Seq<char>>
    decreases depth, es, 1int, es.len() - k,
{
    if k < 0 || k >= es.len() {
        Ok((done, st))
    } else {
        match lower_form(env, st, es[k], scope, depth) {
            Err(m) => Err(m),
            Ok((t, st1)) => lower_list(env, st1, es, k + 1, done.push(t), scope, depth),
        }
    }
}

/// Lowering of `(do e1 e2 ...)`, whose items are `es`.
pub open spec fn lower_do_form(env: Env, st: Lowering, es: Seq<Form>, scope: Seq<(Seq<char>, Ty)>, depth: nat) -> Result<(Typed, Lowering), Seq<char>>
    decreases depth, es, 2int, 0int,
{
    if es.len() <= 1 {
        Err("`do` requires at least one expression"@)
    } else {
        match lower_list(env, st, es, 1, seq![], scope, depth) {
            Err(m) => Err(m),
            Ok((ts, st1)) => Ok((Typed { ty: ts[ts.len() - 1].ty, kind: Kind::Do(ts) }, st1)),
        }
    }
}

/// Lowering of `(print "text")`, whose items are `es`.
pub open spec fn lower_print_form(st: Lowering, es: Seq<Form>) -> Result<(Typed, Lowering), Seq<char>> {
    if es.len() == 2 && es[1] is String {
        Ok((
            Typed { ty: Ty::Unit, kind: Kind::Print(st.strings.len() as int) },
            Lowering { strings: st.strings.push(encode_utf8(es[1]->String_0)), ..st },
        ))
    } else {
        Err("`print` requires exactly one string literal"@)
    }
}

/// Lowering of `(+ a b)`, whose items are `es`.
pub open spec fn lower_add_form(env: Env, st: Lowering, es: Seq<Form>, scope: Seq<(Seq<char>, Ty)>, depth: nat) -> Result<(Typed, Lowering), Seq<char>>
    decreases depth, es, 2int, 0int,
{
    if es.len() != 3 {
        Err("`+` requires exactly two arguments"@)
    } else {
        match lower_form(env, st, es[1], scope, depth) {
            Err(m) => Err(m),
            Ok((l, st1)) => match lower_form(env, st1, es[2], scope, depth) {
                Err(m) => Err(m),
                Ok((r, st2)) => if l.ty != Ty::Int || r.ty != Ty::Int {
                    Err("`+` requires two `Int` arguments"@)
                } else {
                    Ok((Typed { ty: Ty::Int, kind: Kind::Add(Box::new(l), Box::new(r)) }, st2))
                },
            },
        }
    }
}

/// Lowering of a call of `name`, whose items are `es`: the arguments in order, then
/// the non-generic function of that name, else the generic one specialized for the
/// argument types, else the one implemented method that takes exactly those types.
pub open spec fn lower_call_form(env: Env, st: Lowering, name: Seq<char>, es: Seq<Form>, scope: Seq<(Seq<char>, Ty)>, depth: nat) -> Result<(Typed, Lowering), Seq<char>>
    decreases depth, es, 2int, 0int,
{
    match lower_list(env, st, es, 1, seq![], scope, depth) {
        Err(m) => Err(m),
        Ok((args, st1)) => match index_of(concrete_names(env.concrete), name) {
            Some(i) => match arguments_fit(name, types_of(args), param_types(env.concrete[i].definition.parameters)) {
                Err(m) => Err(m),
                Ok(_) => Ok((Typed { ty: env.concrete[i].definition.return_type, kind: Kind::Call(env.concrete[i].function, args) }, st1)),
            },
            None => match index_of(function_names(env.generic), name) {
                Some(gi) => match inferred(env.generic[gi], types_of(args)) {
                    Err(m) => Err(m),
                    Ok(s) => match requirements_hold_from(env.impls, env.generic[gi], s, seq![], 0) {
                        Err(m) => Err(m),
                        Ok(_) => if depth == 0 {
                            match specialization_index(st1.specs, env.generic[gi].name, type_arguments_of(env.generic[gi], s), 0) {
                                Some(k) => Ok((Typed { ty: substituted(env.generic[gi].return_type, s), kind: Kind::Call(st1.specs[k].function, args) }, st1)),
                                None => Err(too_deep(name)),
                            }
                        } else {
                            match specialize_form(env, st1, env.generic[gi], type_arguments_of(env.generic[gi], s), s, (depth - 1) as nat) {
                                Err(m) => Err(m),
                                Ok((f, st2)) => Ok((Typed { ty: substituted(env.generic[gi].return_type, s), kind: Kind::Call(f, args) }, st2)),
                            }
                        },
                    },
                },
                None => {
                    let found = method_matches(env.impls, name, types_of(args), 0);
                    if found.len() == 1 {
                        Ok((Typed { ty: env.impls[found[0]].definition.return_type, kind: Kind::Call(env.impls[found[0]].function, args) }, st1))
                    } else if found.len() == 0 {
                        Err(no_callee(name))
                    } else {
                        Err(ambiguous_call(name))
                    }
                },
            },
        },
    }
}

/// The program function of the generic function `g` specialized at `targs` under
/// the substitution `s`: the one made before, or a new one, reserved and then lowered.
pub open spec fn specialize_form(env: Env, st: Lowering, g: FunctionDecl, targs: Seq<Ty>, s: Seq<(Seq<char>, Ty)>, depth: nat) -> Result<(int, Lowering), Seq<char>>
    decreases depth, g.body, 5int, 0int,
{
    match specialization_index(st.specs, g.name, targs, 0) {
        Some(k) => Ok((st.specs[k].function, st)),
        None => {
            let f = st.pending.len() as int;
            let reserved = PendingDecl {
                symbol: specialization_symbol(g.name, targs),
                parameters: instance_parameters(g, s),
                return_type: substituted(g.return_type, s),
                body: None,
            };
            let made = SpecializationDecl { name: g.name, type_arguments: targs, function: f, substitution: s };
            match lower_def_form(env, Lowering { pending: st.pending.push(reserved), specs: st.specs.push(made), strings: st.strings }, g, f, s, depth) {
                Err(m) => Err(m),
                Ok(st1) => Ok((f, st1)),
            }
        },
    }
}

/// Lowering of the body of definition `d` under the substitution `s` into the
/// reserved program function `f`.
pub open spec fn lower_def_form(env: Env, st: Lowering, d: FunctionDecl, f: int, s: Seq<(Seq<char>, Ty)>, depth: nat) -> Result<Lowering, Seq<char>>
    decreases depth, d.body, 4int, 0int,
{
    match lower_form(env, st, d.body, definition_scope(d, s), depth) {
        Err(m) => Err(m),
        Ok((b, st1)) => if b.ty != substituted(d.return_type, s) {
            Err(body_mismatch(d.name, b.ty, substituted(d.return_type, s)))
        } else {
            Ok(Lowering { pending: st1.pending.update(f, PendingDecl { body: Some(b), ..st1.pending[f] }), ..st1 })
        },
    }
}

/// Whether specializing gave `r` and left `after`, as `expected` says.
pub open spec fn specialized_as(r: Result<usize, Error>, expected: Result<(int, Lowering), Seq<char>>, after: Lowering) -> bool {
    match expected {
        Ok((f, st)) => r matches Ok(x) && x as int == f && after == st,
        Err(m) => r matches Err(e) && e@ == m,
    }
}

/// Whether lowering a definition gave `r` and left `after`, as `expected` says.
pub open spec fn lowered_def_as(r: Result<(), Error>, expected: Result<Lowering, Seq<char>>, after: Lowering) -> bool {
    match expected {
        Ok(st) => r is Ok && after == st,
        Err(m) => r matches Err(e) && e@ == m,
    }
}

/// Whether lowering gave `r` and left `after`, as `expected` says.
pub open spec fn lowered_as(r: Result<TypedExpression, Error>, expected: Result<(Typed, Lowering), Seq<char>>, after: Lowering) -> bool {
    match expected {
        Ok((t, st)) => r matches Ok(e) && e@ == t && after == st,
        Err(m) => r matches Err(e) && e@ == m,
    }
}

impl Analyzer {
    /// Lowers an expression of a function whose parameters are `scope`.
    fn lower_expression(&mut self, expression: &Expression, scope: &Vec<(String, Type)>, Ghost(depth): Ghost<nat>) -> (r: Result<TypedExpression, Error>)
        requires
            !exhausted(lower_form(old(self).env(), old(self).lowering(), expression@, bindings(scope@), depth)),
            old(self).ready(),
            values_concrete(bindings(scope@)),
        ensures
            final(self).ready(),
            old(self).grown_into(final(self)),
            old(self).kept_bodies(final(self), -1),
            r matches Ok(e) ==> lowered_ok(e@, bindings(scope@), final(self).sigs(), final(self).strings@.len()),
            lowered_as(r, lower_form(old(self).env(), old(self).lowering(), expression@, bindings(scope@), depth), final(self).lowering()),
        decreases depth, expression@, 2int,
    {
        match expression {
            Expression::Integer(value) => Ok(typed(Type::Int, ExpressionKind::Integer(*value))),
            Expression::String(_) => Ok(typed(Type::String, ExpressionKind::String)),
            Expression::Symbol(name) => match find_binding(scope, name.as_str()) {
                Some(i) => {
                    proof {
                        assert(bindings(scope@)[i as int].1 == scope@[i as int].1@);
                    }
                    Ok(typed(scope[i].1.duplicate(), ExpressionKind::Parameter(i)))
                },
                None => Err(Error::new(join3("unknown name `", name.as_str(), "`"))),
            },
            Expression::List(expressions) => {
                assert(views(expressions@) =~= expression@->List_0);
                let operator = match first_symbol(expressions, "expression must begin with an operator") {
                    Ok(op) => op,
                    Err(e) => {
                        return Err(e);
                    },
                };
                if same_text(operator.as_str(), "do") {
                    self.lower_do(expressions, scope, Ghost(depth))
                } else if same_text(operator.as_str(), "print") {
                    self.lower_print(expressions)
                } else if same_text(operator.as_str(), "+") {
                    self.lower_add(expressions, scope, Ghost(depth))
                } else {
                    self.lower_call(operator.as_str(), expressions, scope, Ghost(depth))
                }
            },
        }
    }

    /// Lowers `(do e1 e2 ...)`, whose whole list is `expressions`.
    fn lower_do(&mut self, expressions: &Vec<Expression>, scope: &Vec<(String, Type)>, Ghost(depth): Ghost<nat>) -> (r: Result<TypedExpression, Error>)
        requires
            !exhausted(lower_do_form(old(self).env(), old(self).lowering(), views(expressions@), bindings(scope@), depth)),
            old(self).ready(),
            values_concrete(bindings(scope@)),
        ensures
            final(self).ready(),
            old(self).grown_into(final(self)),
            old(self).kept_bodies(final(self), -1),
            r matches Ok(e) ==> lowered_ok(e@, bindings(scope@), final(self).sigs(), final(self).strings@.len()),
            lowered_as(r, lower_do_form(old(self).env(), old(self).lowering(), views(expressions@), bindings(scope@), depth), final(self).lowering()),
        decreases depth, Form::List(views(expressions@)), 1int,
    {
        if expressions.len() <= 1 {
            return Err(error("`do` requires at least one expression"));
        }
        let ghost b = bindings(scope@);
        let ghost env = self.env();
        let ghost es = views(expressions@);
        let ghost d = depth;
        let mut lowered: Vec<TypedExpression> = Vec::new();
        let mut k: usize = 1;
        assert(typeds(lowered@) =~= Seq::<Typed>::empty());
        while k < expressions.len()
            invariant
                self.ready(),
                old(self).grown_into(self),
                old(self).kept_bodies(self, -1),
                b == bindings(scope@),
                env == self.env(),
                env == old(self).env(),
                es == views(expressions@),
                d == depth,
                values_concrete(b),
                1 <= k <= expressions@.len(),
                lowered@.len() == k - 1,
                forall|j: int| 0 <= j < lowered@.len() ==> lowered_ok(#[trigger] lowered@[j]@, b, self.sigs(), self.strings@.len()),
                lower_list(env, old(self).lowering(), es, 1, seq![], b, d) == lower_list(env, self.lowering(), es, k as int, typeds(lowered@), b, d),
                !exhausted(lower_list(env, old(self).lowering(), es, 1, seq![], b, d)),
            decreases expressions@.len() - k,
        {
            proof {
                let fl = Form::List(views(expressions@));
                assert(fl->List_0[k as int] == expressions@[k as int]@);
                assert(decreases_to!(fl => fl->List_0));
                assert(decreases_to!(fl->List_0 => fl->List_0[k as int]));
            }
            proof {
                let lf = lower_form(env, self.lowering(), es[k as int], b, d);
                assert(es[k as int] == expressions@[k as int]@);
                if lf is Err {
                    assert(lower_list(env, self.lowering(), es, k as int, typeds(lowered@), b, d) == Err::<(Seq<Typed>, Lowering), Seq<char>>(lf->Err_0));
                }
            }
            let ghost before: Analyzer = *self;
            let e = match self.lower_expression(&expressions[k], scope, Ghost(depth)) {
                Ok(e) => e,
                Err(e) => {
                    proof {
                        old(self).lemma_grown_trans(&before, self);
                    }
                    return Err(e);
                },
            };
            proof {
                old(self).lemma_grown_trans(&before, self);
                assert forall|j: int| 0 <= j < lowered@.len() implies lowered_ok(#[trigger] lowered@[j]@, b, self.sigs(), self.strings@.len()) by {
                    before.lemma_grown_typed(self, lowered@[j]@, scope_types(b));
                }
            }
            let ghost done = typeds(lowered@);
            lowered.push(e);
            assert(typeds(lowered@) =~= done.push(e@));
            k += 1;
        }
        let ty = lowered[lowered.len() - 1].ty.duplicate();
        let ghost ts = typeds(lowered@);
        let r = typed(ty, ExpressionKind::Do(lowered));
        proof {
            let rs = r@.kind->Do_0;
            assert(rs =~= ts);
            assert forall|i: int| 0 <= i < rs.len() implies well_typed(#[trigger] rs[i], scope_types(b), self.sigs(), self.strings@.len()) by {
                assert(rs[i] == ts[i]);
            }
            assert(rs[rs.len() - 1] == ts[ts.len() - 1]);
        }
        Ok(r)
    }

    /// Lowers `(print "text")`, whose whole list is `expressions`, recording the text as a
    /// program string.
    fn lower_print(&mut self, expressions: &Vec<Expression>) -> (r: Result<TypedExpression, Error>)
        requires
            old(self).ready(),
        ensures
            final(self).ready(),
            old(self).grown_into(final(self)),
            old(self).kept_bodies(final(self), -1),
            match r {
                Ok(e) => e@ == (Typed { ty: Ty::Unit, kind: Kind::Print(old(self).strings@.len() as int) })
                    && final(self).strings@.len() == old(self).strings@.len() + 1,
                Err(e) => e@ == "`print` requires exactly one string literal"@,
            },
            r is Ok <==> (expressions@.len() == 2 && expressions@[1] is String),
            lowered_as(r, lower_print_form(old(self).lowering(), views(expressions@)), final(self).lowering()),
    {
        if expressions.len() == 2 {
            assert(views(expressions@)[1] == expressions@[1]@);
            if let Expression::String(value) = &expressions[1] {
                let index = self.strings.len();
                let ghost before = old(self).lowering().strings;
                self.strings.push(value.as_str().as_bytes_vec());
                proof {
                    assert(self.lowering().strings =~= before.push(encode_utf8(value@)));
                    lemma_ready_more_strings(
                        self.env(),
                        views(self.pending_functions@),
                        views(self.specializations@),
                        old(self).strings@.len(),
                        self.strings@.len(),
                    );
                }
                return Ok(typed(Type::Unit, ExpressionKind::Print(index)));
            }
        }
        Err(error("`print` requires exactly one string literal"))
    }

    /// Lowers `(+ a b)`, whose whole list is `expressions`.
    fn lower_add(&mut self, expressions: &Vec<Expression>, scope: &Vec<(String, Type)>, Ghost(depth): Ghost<nat>) -> (r: Result<TypedExpression, Error>)
        requires
            !exhausted(lower_add_form(old(self).env(), old(self).lowering(), views(expressions@), bindings(scope@), depth)),
            old(self).ready(),
            values_concrete(bindings(scope@)),
        ensures
            final(self).ready(),
            old(self).grown_into(final(self)),
            old(self).kept_bodies(final(self), -1),
            r matches Ok(e) ==> lowered_ok(e@, bindings(scope@), final(self).sigs(), final(self).strings@.len()),
            lowered_as(r, lower_add_form(old(self).env(), old(self).lowering(), views(expressions@), bindings(scope@), depth), final(self).lowering()),
        decreases depth, Form::List(views(expressions@)), 1int,
    {
        if expressions.len() != 3 {
            return Err(error("`+` requires exactly two arguments"));
        }
        let ghost b = bindings(scope@);
        proof {
            let fl = Form::List(views(expressions@));
            assert(fl->List_0[1] == expressions@[1]@);
            assert(fl->List_0[2] == expressions@[2]@);
            assert(decreases_to!(fl => fl->List_0));
            assert(decreases_to!(fl->List_0 => fl->List_0[1]));
            assert(decreases_to!(fl->List_0 => fl->List_0[2]));
        }
        let ghost start: Analyzer = *self;
        let left = match self.lower_expression(&expressions[1], scope, Ghost(depth)) {
            Ok(e) => e,
            Err(e) => {
                return Err(e);
            },
        };
        let ghost middle: Analyzer = *self;
        let right = match self.lower_expression(&expressions[2], scope, Ghost(depth)) {
            Ok(e) => e,
            Err(e) => {
                proof {
                    start.lemma_grown_trans(&middle, self);
                }
                return Err(e);
            },
        };
        proof {
            start.lemma_grown_trans(&middle, self);
            middle.lemma_grown_typed(self, left@, scope_types(b));
        }
        assert(Type::Int@ == Ty::Int);
        if !left.ty.same(&Type::Int) || !right.ty.same(&Type::Int) {
            return Err(error("`+` requires two `Int` arguments"));
        }
        Ok(typed(Type::Int, ExpressionKind::Add(Box::new(left), Box::new(right))))
    }

    /// Lowers a call of `name`, whose whole list is `expressions`: a non-generic
    /// function, else a generic function specialized for the argument types, else the
    /// one implemented method that takes exactly the argument types.
    fn lower_call(&mut self, name: &str, expressions: &Vec<Expression>, scope: &Vec<(String, Type)>, Ghost(depth): Ghost<nat>) -> (r: Result<TypedExpression, Error>)
        requires
            !exhausted(lower_call_form(old(self).env(), old(self).lowering(), name@, views(expressions@), bindings(scope@), depth)),
            old(self).ready(),
            values_concrete(bindings(scope@)),
        ensures
            final(self).ready(),
            old(self).grown_into(final(self)),
            old(self).kept_bodies(final(self), -1),
            r matches Ok(e) ==> lowered_ok(e@, bindings(scope@), final(self).sigs(), final(self).strings@.len()),
            lowered_as(r, lower_call_form(old(self).env(), old(self).lowering(), name@, views(expressions@), bindings(scope@), depth), final(self).lowering()),
        decreases depth, Form::List(views(expressions@)), 1int,
    {
        let ghost b = bindings(scope@);
        let ghost env = self.env();
        let ghost es = views(expressions@);
        let ghost d = depth;
        let mut arguments: Vec<TypedExpression> = Vec::new();
        let mut argument_types: Vec<Type> = Vec::new();
        let mut k: usize = 1;
        assert(typeds(arguments@) =~= Seq::<Typed>::empty());
        while k < expressions.len()
            invariant
                self.ready(),
                old(self).grown_into(self),
                old(self).kept_bodies(self, -1),
                b == bindings(scope@),
                env == self.env(),
                env == old(self).env(),
                es == views(expressions@),
                d == depth,
                values_concrete(b),
                1 <= k <= expressions@.len() || (k == 1 && expressions@.len() == 0),
                arguments@.len() == k - 1,
                argument_types@.len() == k - 1,
                forall|j: int|
                    0 <= j < arguments@.len() ==> lowered_ok(#[trigger] arguments@[j]@, b, self.sigs(), self.strings@.len())
                        && argument_types@[j]@ == arguments@[j]@.ty,
                lower_list(env, old(self).lowering(), es, 1, seq![], b, d) == lower_list(env, self.lowering(), es, k as int, typeds(arguments@), b, d),
                !exhausted(lower_list(env, old(self).lowering(), es, 1, seq![], b, d)),
            decreases expressions@.len() - k,
        {
            proof {
                let fl = Form::List(views(expressions@));
                assert(fl->List_0[k as int] == expressions@[k as int]@);
                assert(decreases_to!(fl => fl->List_0));
                assert(decreases_to!(fl->List_0 => fl->List_0[k as int]));
            }
            proof {
                let lf = lower_form(env, self.lowering(), es[k as int], b, d);
                assert(es[k as int] == expressions@[k as int]@);
                if lf is Err {
                    assert(lower_list(env, self.lowering(), es, k as int, typeds(arguments@), b, d) == Err::<(Seq<Typed>, Lowering), Seq<char>>(lf->Err_0));
                }
            }
            let ghost before: Analyzer = *self;
            let e = match self.lower_expression(&expressions[k], scope, Ghost(depth)) {
                Ok(e) => e,
                Err(e) => {
                    proof {
                        old(self).lemma_grown_trans(&before, self);
                    }
                    return Err(e);
                },
            };
            proof {
                old(self).lemma_grown_trans(&before, self);
                assert forall|j: int| 0 <= j < arguments@.len() implies lowered_ok(#[trigger] arguments@[j]@, b, self.sigs(), self.strings@.len()) by {
                    before.lemma_grown_typed(self, arguments@[j]@, scope_types(b));
                }
            }
            let ghost done = typeds(arguments@);
            argument_types.push(e.ty.duplicate());
            arguments.push(e);
            assert(typeds(arguments@) =~= done.push(arguments@[k - 1]@));
            k += 1;
        }
        let ghost args = tys(argument_types@);
        let ghost lowered_args = typeds(arguments@);
        let ghost st1 = self.lowering();
        assert(lower_list(env, self.lowering(), es, k as int, typeds(arguments@), b, d) == Ok::<(Seq<Typed>, Lowering), Seq<char>>((lowered_args, st1)));
        assert(args =~= types_of(lowered_args));
        assert forall|j: int| 0 <= j < args.len() implies is_concrete(#[trigger] args[j]) by {
            assert(lowered_ok(arguments@[j]@, b, self.sigs(), self.strings@.len()));
        }
        if let Some(i) = self.find_concrete(name) {
            let concrete = &self.concrete_functions[i];
            assert(self.env().concrete[i as int] == concrete@);
            assert(concrete_ready(self.env().concrete[i as int], views(self.pending_functions@)));
            let parameters = parameter_types(&concrete.definition.parameters);
            match check_arguments(name, &argument_types, &parameters) {
                Ok(_) => {},
                Err(e) => {
                    return Err(e);
                },
            }
            let return_type = concrete.definition.return_type.duplicate();
            let function = concrete.function;
            let r = typed(return_type, ExpressionKind::Call { function, arguments });
            proof {
                let f = function as int;
                let sigs = self.sigs();
                assert(views(self.pending_functions@)[f] == self.pending_functions@[f]@);
                assert(pending_ready(views(self.pending_functions@)[f], sigs, self.strings@.len()));
                let rs = r@.kind->Call_1;
                assert(rs =~= lowered_args);
                assert forall|x: int| 0 <= x < rs.len() implies (#[trigger] rs[x]).ty == sigs[f].parameters[x] && well_typed(rs[x], scope_types(b), sigs, self.strings@.len()) by {
                    assert(rs[x] == arguments@[x]@);
                    assert(args[x] == argument_types@[x]@);
                }
            }
            return Ok(r);
        }
        if let Some(i) = self.find_generic(name) {
            let generic = self.generic_functions[i].duplicate();
            let ghost g = generic@;
            proof {
                assert(self.env().generic[i as int] == g);
                lemma_index_from(function_names(self.env().generic), name@, 0);
                assert(decl_scoped(g));
            }
            let substitutions = match infer_type_arguments(&generic, &argument_types) {
                Ok(s) => s,
                Err(e) => {
                    return Err(e);
                },
            };
            let ghost s = bindings(substitutions@);
            proof {
                assert(seq![] =~= Seq::<(Seq<char>, Ty)>::empty());
                lemma_unified_from(g.parameters, args, 0, seq![]);
                lemma_first_unbound(g.type_parameters, s, 0);
            }
            let no_constraints: Vec<Constraint> = Vec::new();
            assert(views(no_constraints@) =~= Seq::<Requirement>::empty());
            match self.check_requirements(&generic, &substitutions, &no_constraints) {
                Ok(_) => {},
                Err(e) => {
                    return Err(e);
                },
            }
            let mut type_arguments: Vec<Type> = Vec::new();
            let mut j: usize = 0;
            while j < generic.type_parameters.len()
                invariant
                    g == generic@,
                    s == bindings(substitutions@),
                    forall|x: int| 0 <= x < g.type_parameters.len() ==> bound(s, #[trigger] g.type_parameters[x]) is Some,
                    j <= g.type_parameters.len(),
                    type_arguments@.len() == j,
                    forall|x: int| 0 <= x < j ==> bound(s, #[trigger] g.type_parameters[x]) == Some(type_arguments@[x]@),
                decreases g.type_parameters.len() - j,
            {
                assert(g.type_parameters[j as int] == generic.type_parameters@[j as int]@);
                let t = lookup(&substitutions, generic.type_parameters[j].as_str()).unwrap().duplicate();
                type_arguments.push(t);
                j += 1;
            }
            assert(tys(type_arguments@) =~= type_arguments_of(g, s));
            let return_type = substitute(&generic.return_type, &substitutions);
            let ghost before: Analyzer = *self;
            let function = match self.cached_specialization(&generic, &type_arguments, &substitutions) {
                Some(f) => f,
                None => {
                    proof {
                        if depth == 0 {
                            assert(lower_call_form(env, old(self).lowering(), name@, es, b, d) == Err::<(Typed, Lowering), Seq<char>>(too_deep(name@)));
                            assert(exhausted(lower_call_form(env, old(self).lowering(), name@, es, b, d)));
                        }
                    }
                    match self.specialize(generic, type_arguments, substitutions, Ghost((depth - 1) as nat)) {
                        Ok(f) => f,
                        Err(e) => {
                            return Err(e);
                        },
                    }
                },
            };
            let r = typed(return_type, ExpressionKind::Call { function, arguments });
            proof {
                let f = function as int;
                let sigs = self.sigs();
                assert(views(self.pending_functions@)[f] == self.pending_functions@[f]@);
                assert(pending_ready(views(self.pending_functions@)[f], sigs, self.strings@.len()));
                let rs = r@.kind->Call_1;
                assert(rs =~= lowered_args);
                assert forall|x: int| 0 <= x < rs.len() implies (#[trigger] rs[x]).ty == sigs[f].parameters[x] && well_typed(rs[x], scope_types(b), sigs, self.strings@.len()) by {
                    assert(rs[x] == arguments@[x]@);
                    assert(args[x] == argument_types@[x]@);
                    assert(substituted(g.parameters[x].ty, s) == args[x]);
                    assert(instance_parameters(g, s)[x] == substituted(g.parameters[x].ty, s));
                    before.lemma_grown_typed(self, arguments@[x]@, scope_types(b));
                }
            }
            return Ok(r);
        }
        let mut candidates: Vec<usize> = Vec::new();
        let ghost impls = self.env().impls;
        let mut j: usize = 0;
        assert(method_matches(impls, name@, args, 0) =~= Seq::<usize>::empty().map_values(|c: usize| c as int) + method_matches(impls, name@, args, 0));
        while j < self.impl_methods.len()
            invariant
                j <= self.impl_methods@.len(),
                impls == self.env().impls,
                args == tys(argument_types@),
                method_matches(impls, name@, args, 0) == candidates@.map_values(|c: usize| c as int) + method_matches(impls, name@, args, j as int),
                forall|x: int|
                    0 <= x < candidates@.len() ==> (#[trigger] candidates@[x]) < self.impl_methods@.len()
                        && param_types(self.impl_methods@[candidates@[x] as int]@.definition.parameters) == args,
            decreases self.impl_methods@.len() - j,
        {
            let method = &self.impl_methods[j];
            assert(impls[j as int] == method@);
            let ghost chosen = candidates@.map_values(|c: usize| c as int);
            if same_text(method.signature.name.as_str(), name) && same_types(&parameter_types(&method.definition.parameters), &argument_types) {
                candidates.push(j);
                assert(candidates@.map_values(|c: usize| c as int) =~= chosen.push(j as int));
                assert(chosen.push(j as int) + method_matches(impls, name@, args, j + 1) =~= chosen + (seq![j as int] + method_matches(impls, name@, args, j + 1)));
            }
            j += 1;
        }
        let ghost found = method_matches(impls, name@, args, 0);
        assert(found =~= candidates@.map_values(|c: usize| c as int));
        if candidates.len() == 1 {
            let method = &self.impl_methods[candidates[0]];
            let ghost mi = candidates@[0] as int;
            assert(found[0] == mi);
            assert(self.env().impls[mi] == method@);
            assert(method_ready(self.env().impls[mi], views(self.pending_functions@)));
            let function = method.function;
            let r = typed(method.definition.return_type.duplicate(), ExpressionKind::Call { function, arguments });
            proof {
                let f = function as int;
                let sigs = self.sigs();
                assert(views(self.pending_functions@)[f] == self.pending_functions@[f]@);
                assert(pending_ready(views(self.pending_functions@)[f], sigs, self.strings@.len()));
                let rs = r@.kind->Call_1;
                assert(rs =~= lowered_args);
                assert forall|x: int| 0 <= x < rs.len() implies (#[trigger] rs[x]).ty == sigs[f].parameters[x] && well_typed(rs[x], scope_types(b), sigs, self.strings@.len()) by {
                    assert(rs[x] == arguments@[x]@);
                    assert(args[x] == argument_types@[x]@);
                }
            }
            Ok(r)
        } else if candidates.len() == 0 {
            Err(Error::new(join3("no function or trait method `", name, "` accepts the supplied argument types")))
        } else {
            Err(Error::new(join3("call to trait method `", name, "` is ambiguous")))
        }
    }

    /// The program function made before for `definition` specialized at
    /// `type_arguments`, if there is one.
    fn cached_specialization(&self, definition: &FunctionDefinition, type_arguments: &Vec<Type>, substitutions: &Substitution) -> (r: Option<usize>)
        requires
            self.ready(),
            (index_of(function_names(self.env().generic), definition@.name) matches Some(gi) && self.env().generic[gi] == definition@),
            values_concrete(bindings(substitutions@)),
            type_arguments@.len() == definition@.type_parameters.len(),
            forall|k: int|
                0 <= k < definition@.type_parameters.len() ==> bound(bindings(substitutions@), #[trigger] definition@.type_parameters[k])
                    == Some(type_arguments@[k]@),
        ensures
            match specialization_index(self.lowering().specs, definition@.name, tys(type_arguments@), 0) {
                Some(k) => r matches Some(f) && f as int == self.lowering().specs[k].function,
                None => r is None,
            },
            r matches Some(f) ==> f < self.pending_functions@.len()
                && self.pending_functions@[f as int]@.parameters == instance_parameters(definition@, bindings(substitutions@))
                && self.pending_functions@[f as int]@.return_type == substituted(definition@.return_type, bindings(substitutions@)),
    {
        let ghost g = definition@;
        let ghost s = bindings(substitutions@);
        let ghost targs = tys(type_arguments@);
        let ghost gi = index_of(function_names(self.env().generic), g.name)->Some_0;
        proof {
            lemma_index_from(function_names(self.env().generic), g.name, 0);
        }
        assert(decl_scoped(self.env().generic[gi]));
        let mut k: usize = 0;
        while k < self.specializations.len()
            invariant
                self.ready(),
                k <= self.specializations@.len(),
                g == definition@,
                s == bindings(substitutions@),
                targs == tys(type_arguments@),
                index_of(function_names(self.env().generic), g.name) == Some(gi),
                0 <= gi < self.env().generic.len(),
                self.env().generic[gi] == g,
                decl_scoped(g),
                values_concrete(s),
                type_arguments@.len() == g.type_parameters.len(),
                forall|x: int| 0 <= x < g.type_parameters.len() ==> bound(s, #[trigger] g.type_parameters[x]) == Some(type_arguments@[x]@),
                specialization_index(views(self.specializations@), g.name, targs, 0) == specialization_index(views(self.specializations@), g.name, targs, k as int),
            decreases self.specializations@.len() - k,
        {
            let specialization = &self.specializations[k];
            assert(views(self.specializations@)[k as int] == specialization@);
            if same_text(specialization.name.as_str(), definition.name.as_str()) && same_types(&specialization.type_arguments, &type_arguments) {
                proof {
                    let sp = views(self.specializations@)[k as int];
                    assert(sp == specialization@);
                    assert(specialization_ready(sp, self.env().generic, views(self.pending_functions@)));
                    assert forall|x: int| 0 <= x < g.type_parameters.len() implies bound(sp.substitution, #[trigger] g.type_parameters[x]) == bound(s, g.type_parameters[x]) by {
                        assert(tys(type_arguments@)[x] == type_arguments@[x]@);
                    }
                    lemma_instance_agree(g, sp.substitution, s);
                    assert(views(self.pending_functions@)[sp.function] == self.pending_functions@[sp.function]@);
                }
                return Some(specialization.function);
            }
            k += 1;
        }
        None
    }

    /// The program function of a generic function specialized for `type_arguments`:
    /// the one made before for the same function and type arguments, or a new one
    /// whose body is lowered under `substitutions`.
    fn specialize(&mut self, definition: FunctionDefinition, type_arguments: Vec<Type>, substitutions: Substitution, Ghost(depth): Ghost<nat>) -> (r: Result<usize, Error>)
        requires
            !exhausted(specialize_form(old(self).env(), old(self).lowering(), definition@, tys(type_arguments@), bindings(substitutions@), depth)),
            old(self).ready(),
            (index_of(function_names(old(self).env().generic), definition@.name) matches Some(gi) && old(self).env().generic[gi] == definition@),
            values_concrete(bindings(substitutions@)),
            type_arguments@.len() == definition@.type_parameters.len(),
            forall|k: int|
                0 <= k < definition@.type_parameters.len() ==> bound(bindings(substitutions@), #[trigger] definition@.type_parameters[k])
                    == Some(type_arguments@[k]@),
        ensures
            final(self).ready(),
            old(self).grown_into(final(self)),
            old(self).kept_bodies(final(self), -1),
            r matches Ok(f) ==> f < final(self).pending_functions@.len()
                && final(self).pending_functions@[f as int]@.parameters == instance_parameters(definition@, bindings(substitutions@))
                && final(self).pending_functions@[f as int]@.return_type == substituted(definition@.return_type, bindings(substitutions@)),
            specialized_as(r, specialize_form(old(self).env(), old(self).lowering(), definition@, tys(type_arguments@), bindings(substitutions@), depth), final(self).lowering()),
        decreases depth, definition@.body, 4int,
    {
        let ghost g = definition@;
        let ghost s = bindings(substitutions@);
        let ghost targs = tys(type_arguments@);
        let ghost gi = index_of(function_names(self.env().generic), g.name)->Some_0;
        proof {
            lemma_index_from(function_names(self.env().generic), g.name, 0);
        }
        assert(decl_scoped(self.env().generic[gi]));
        match self.cached_specialization(&definition, &type_arguments, &substitutions) {
            Some(f) => {
                return Ok(f);
            },
            None => {},
        }
        let mut parameters: Vec<Type> = Vec::new();
        let mut j: usize = 0;
        while j < definition.parameters.len()
            invariant
                g == definition@,
                s == bindings(substitutions@),
                j <= g.parameters.len(),
                parameters@.len() == j,
                forall|x: int| 0 <= x < j ==> #[trigger] parameters@[x]@ == substituted(g.parameters[x].ty, s),
            decreases g.parameters.len() - j,
        {
            assert(g.parameters[j as int] == definition.parameters@[j as int]@);
            parameters.push(substitute(&definition.parameters[j].ty, &substitutions));
            j += 1;
        }
        assert(tys(parameters@) =~= instance_parameters(g, s));
        let return_type = substitute(&definition.return_type, &substitutions);
        let mut symbol = join3("kal.fn.", definition.name.as_str(), ".");
        let mut j: usize = 0;
        while j < type_arguments.len()
            invariant
                targs == tys(type_arguments@),
                g == definition@,
                j <= type_arguments@.len(),
                symbol@ == "kal.fn."@ + g.name + "."@ + joined_texts(targs, j as int),
            decreases type_arguments@.len() - j,
        {
            let text = type_arguments[j].text();
            assert(targs[j as int] == type_arguments@[j as int]@);
            if j > 0 {
                symbol.append(".");
            }
            symbol.append(text.as_str());
            proof {
                if j == 0 {
                    assert(joined_texts(targs, 0) =~= Seq::<char>::empty());
                }
            }
            j += 1;
        }
        proof {
            assert forall|x: int| 0 <= x < g.type_parameters.len() implies bound(s, #[trigger] g.type_parameters[x]) is Some by {
                assert(bound(s, g.type_parameters[x]) == Some(type_arguments@[x]@));
            }
            lemma_instance_concrete(g, s);
        }
        let ghost start: Analyzer = *self;
        let function = self.reserve_function(symbol, parameters, return_type);
        proof {
            lemma_ready_after_reserve(
                start.env(),
                views(start.pending_functions@),
                views(start.specializations@),
                start.strings@.len(),
                views(self.pending_functions@)[function as int],
            );
            assert(views(self.pending_functions@)[function as int] == self.pending_functions@[function as int]@);
        }
        let specialization = Specialization {
            name: definition.name.clone(),
            type_arguments,
            function,
            substitution: Ghost(s),
        };
        let ghost spv = specialization@;
        let ghost specs_before = views(self.specializations@);
        self.specializations.push(specialization);
        proof {
            assert(views(self.specializations@) =~= specs_before.push(spv));
            assert forall|x: int| 0 <= x < g.type_parameters.len() implies bound(spv.substitution, #[trigger] g.type_parameters[x]) == Some(spv.type_arguments[x]) by {
                assert(spv.type_arguments[x] == tys(type_arguments@)[x]);
            }
            assert(specialization_index(specs_before, spv.name, spv.type_arguments, 0) is None);
            lemma_ready_after_specialization(
                self.env(),
                views(self.pending_functions@),
                specs_before,
                self.strings@.len(),
                spv,
            );
            assert(start.grown_into(self)) by {
                assert forall|i: int| 0 <= i < start.pending_functions@.len() implies same_reservation(
                    #[trigger] start.pending_functions@[i]@,
                    self.pending_functions@[i]@,
                ) by {
                    assert(views(self.pending_functions@)[i] == self.pending_functions@[i]@);
                    assert(views(start.pending_functions@)[i] == start.pending_functions@[i]@);
                }
            }
            let reserved = PendingDecl {
                symbol: specialization_symbol(g.name, targs),
                parameters: instance_parameters(g, s),
                return_type: substituted(g.return_type, s),
                body: None,
            };
            let made = SpecializationDecl { name: g.name, type_arguments: targs, function: function as int, substitution: s };
            assert(spv == made);
            assert(views(self.pending_functions@)[function as int] == reserved);
            assert(self.lowering() == Lowering {
                pending: start.lowering().pending.push(reserved),
                specs: start.lowering().specs.push(made),
                strings: start.lowering().strings,
            });
        }
        let ghost middle: Analyzer = *self;
        proof {
            assert forall|i: int| 0 <= i < start.pending_functions@.len() implies (#[trigger] middle.pending_functions@[i])@.body
                == start.pending_functions@[i]@.body by {
                assert(views(middle.pending_functions@)[i] == middle.pending_functions@[i]@);
                assert(views(start.pending_functions@)[i] == start.pending_functions@[i]@);
            }
        }
        match self.lower_definition(&definition, function, &substitutions, Ghost(depth)) {
            Ok(_) => {},
            Err(e) => {
                proof {
                    start.lemma_grown_trans(&middle, self);
                    assert forall|i: int| 0 <= i < start.pending_functions@.len() implies (#[trigger] self.pending_functions@[i])@.body
                        == start.pending_functions@[i]@.body by {
                        assert(middle.pending_functions@[i]@.body == start.pending_functions@[i]@.body);
                    }
                }
                return Err(e);
            },
        }
        proof {
            assert forall|i: int| 0 <= i < start.pending_functions@.len() implies (#[trigger] self.pending_functions@[i])@.body
                == start.pending_functions@[i]@.body by {
                assert(middle.pending_functions@[i]@.body == start.pending_functions@[i]@.body);
            }
            start.lemma_grown_trans(&middle, self);
            assert(same_reservation(middle.pending_functions@[function as int]@, self.pending_functions@[function as int]@));
        }
        Ok(function)
    }

    /// Lowers the body of `definition` into program function `function`, whose
    /// signature is the definition's under `substitutions`.
    fn lower_definition(&mut self, definition: &FunctionDefinition, function: usize, substitutions: &Substitution, Ghost(depth): Ghost<nat>) -> (r: Result<(), Error>)
        requires
            !exhausted(lower_def_form(old(self).env(), old(self).lowering(), definition@, function as int, bindings(substitutions@), depth)),
            old(self).ready(),
            function < old(self).pending_functions@.len(),
            old(self).pending_functions@[function as int]@.parameters == instance_parameters(definition@, bindings(substitutions@)),
            old(self).pending_functions@[function as int]@.return_type == substituted(definition@.return_type, bindings(substitutions@)),
        ensures
            final(self).ready(),
            old(self).grown_into(final(self)),
            old(self).kept_bodies(final(self), if r is Ok { function as int } else { -1 }),
            r is Ok ==> final(self).pending_functions@[function as int]@.body is Some,
            lowered_def_as(r, lower_def_form(old(self).env(), old(self).lowering(), definition@, function as int, bindings(substitutions@), depth), final(self).lowering()),
        decreases depth, definition@.body, 3int,
    {
        let ghost g = definition@;
        let ghost s = bindings(substitutions@);
        let ghost f = function as int;
        let mut scope: Vec<(String, Type)> = Vec::new();
        let mut j: usize = 0;
        while j < definition.parameters.len()
            invariant
                g == definition@,
                s == bindings(substitutions@),
                j <= g.parameters.len(),
                scope@.len() == j,
                forall|x: int|
                    0 <= x < j ==> #[trigger] scope@[x].0@ == g.parameters[x].name && scope@[x].1@ == substituted(g.parameters[x].ty, s),
            decreases g.parameters.len() - j,
        {
            assert(g.parameters[j as int] == definition.parameters@[j as int]@);
            scope.push((definition.parameters[j].name.clone(), substitute(&definition.parameters[j].ty, substitutions)));
            j += 1;
        }
        let ghost b = bindings(scope@);
        proof {
            assert(b =~= definition_scope(g, s));
            assert(scope_types(b) =~= instance_parameters(g, s));
            assert(views(self.pending_functions@)[f] == self.pending_functions@[f]@);
            assert(pending_ready(views(self.pending_functions@)[f], self.sigs(), self.strings@.len()));
            assert forall|i: int| 0 <= i < b.len() implies is_concrete(#[trigger] b[i].1) by {
                assert(b[i].1 == scope_types(b)[i]);
            }
        }
        let ghost start: Analyzer = *self;
        let body = match self.lower_expression(&definition.body, &scope, Ghost(depth)) {
            Ok(e) => e,
            Err(e) => {
                return Err(e);
            },
        };
        let return_type = substitute(&definition.return_type, substitutions);
        if !body.ty.same(&return_type) {
            let description = if same_text(definition.name.as_str(), "main") {
                owned("main body")
            } else {
                join3("function `", definition.name.as_str(), "` body")
            };
            assert(description@ == body_description(g.name));
            let actual = body.ty.text();
            let expected = return_type.text();
            let mut message = join5(description.as_str(), " has type `", actual.as_str(), "`, expected `", expected.as_str());
            message.append("`");
            return Err(Error::new(message));
        }
        let ghost mid: Analyzer = *self;
        assert(same_reservation(start.pending_functions@[f]@, self.pending_functions@[f]@));
        let pending = &self.pending_functions[function];
        let lowered = PendingFunction {
            symbol: pending.symbol.clone(),
            parameters: duplicate_types(&pending.parameters),
            return_type: pending.return_type.duplicate(),
            body: Some(body),
        };
        let ghost lv = lowered@;
        self.pending_functions.set(function, lowered);
        proof {
            let before = views(mid.pending_functions@);
            assert(lv == PendingDecl { body: lv.body, ..before[f] });
            assert(views(self.pending_functions@) =~= before.update(f, lv));
            lemma_ready_after_body(mid.env(), before, views(mid.specializations@), mid.strings@.len(), f, lv.body->Some_0);
            assert(mid.grown_into(self)) by {
                assert forall|i: int| 0 <= i < mid.pending_functions@.len() implies same_reservation(
                    #[trigger] mid.pending_functions@[i]@,
                    self.pending_functions@[i]@,
                ) by {
                    assert(views(self.pending_functions@)[i] == self.pending_functions@[i]@);
                    assert(before[i] == mid.pending_functions@[i]@);
                }
            }
            old(self).lemma_grown_trans(&mid, self);
            assert(views(self.pending_functions@)[f] == self.pending_functions@[f]@);
            assert(self.lowering() == Lowering {
                pending: mid.lowering().pending.update(f, PendingDecl { body: lv.body, ..mid.lowering().pending[f] }),
                ..mid.lowering()
            });
        }
        Ok(())
    }
}

// ---------------------------------------------------------------------------
// The whole program
// ---------------------------------------------------------------------------

/// The check of `main`'s signature: not generic, one `(Array String)` parameter, and
/// an `Int` result.
pub open spec fn main_signature(d: FunctionDecl) -> Result<(), Seq<char>> {
    if d.type_parameters.len() != 0 {
        Err("main cannot be generic"@)
    } else if d.parameters.len() != 1 || d.parameters[0].ty != Ty::Array(Box::new(Ty::String)) {
        Err("main must accept exactly one `Array String` parameter"@)
    } else if d.return_type != Ty::Int {
        Err("main must return `Int`"@)
    } else {
        Ok(())
    }
}

/// The check that the program defines `main` with the entry signature: the index of
/// `main` among the non-generic functions.
pub open spec fn main_check(env: Env) -> Result<int, Seq<char>> {
    match index_of(concrete_names(env.concrete), "main"@) {
        None => Err("program must define `main`"@),
        Some(i) => match main_signature(env.concrete[i].definition) {
            Err(m) => Err(m),
            Ok(_) => Ok(i),
        },
    }
}

/// Whether a program function has the symbol and signature it was reserved with.
pub open spec fn reserved_in(p: PendingDecl, f: FunctionModel) -> bool {
    f.symbol == p.symbol && f.parameters == p.parameters && f.return_type == p.return_type
}

/// Whether `p` is a well-formed program that begins with the functions reserved at
/// registration, in order, and whose entry point is the program function of the
/// non-generic function at index `main`.
pub open spec fn extends_setup(p: ProgramModel, st: Setup, main: int) -> bool {
    &&& well_formed(p)
    &&& 0 <= main < st.env.concrete.len()
    &&& p.main == st.env.concrete[main].function
    &&& st.pending.len() <= p.functions.len()
    &&& forall|j: int| 0 <= j < st.pending.len() ==> reserved_in(#[trigger] st.pending[j], p.functions[j])
}

/// Lowering of the non-generic functions `env.concrete[k..]`, in order.
pub open spec fn lower_concrete_from(env: Env, st: Lowering, k: int, depth: nat) -> Result<Lowering, Seq<char>>
    decreases env.concrete.len() - k,
{
    if k < 0 || k >= env.concrete.len() {
        Ok(st)
    } else {
        match lower_def_form(env, st, env.concrete[k].definition, env.concrete[k].function, seq![], depth) {
            Err(m) => Err(m),
            Ok(st1) => lower_concrete_from(env, st1, k + 1, depth),
        }
    }
}

/// Lowering of the implemented methods `env.impls[k..]`, in order.
pub open spec fn lower_methods_from(env: Env, st: Lowering, k: int, depth: nat) -> Result<Lowering, Seq<char>>
    decreases env.impls.len() - k,
{
    if k < 0 || k >= env.impls.len() {
        Ok(st)
    } else {
        match lower_def_form(env, st, env.impls[k].definition, env.impls[k].function, seq![], depth) {
            Err(m) => Err(m),
            Ok(st1) => lower_methods_from(env, st1, k + 1, depth),
        }
    }
}

/// Lowering of a registered program with nesting of specializations up to `depth`:
/// every non-generic function in order, then every implemented method in order, each
/// specializing the generic functions it calls.
pub open spec fn lower_program_with(st: Setup, depth: nat) -> Result<Lowering, Seq<char>> {
    match lower_concrete_from(st.env, Lowering { pending: st.pending, specs: seq![], strings: seq![] }, 0, depth) {
        Err(m) => Err(m),
        Ok(low) => lower_methods_from(st.env, low, 0, depth),
    }
}

/// Whether lowering stopped for want of depth: a generic function had to be
/// specialized anew when no depth was left.
pub open spec fn exhausted<T>(r: Result<T, Seq<char>>) -> bool {
    r matches Err(m) && exists|name: Seq<char>| m == #[trigger] too_deep(name)
}

/// Whether lowering a registered program ends: some depth of nesting suffices for
/// every specialization it makes. (Without one, lowering specializes without end.)
pub open spec fn lowering_ends(st: Setup) -> bool {
    exists|depth: nat| !exhausted(#[trigger] lower_program_with(st, depth))
}

/// A depth of nesting that suffices for lowering a program, if one does.
pub open spec fn program_depth(st: Setup) -> nat {
    if lowering_ends(st) {
        choose|depth: nat| !exhausted(#[trigger] lower_program_with(st, depth))
    } else {
        0
    }
}

/// Lowering of a registered program: every non-generic function in order, then every
/// implemented method in order, each specializing the generic functions it calls, as
/// deeply as they nest.
pub open spec fn lower_program(st: Setup) -> Result<Lowering, Seq<char>> {
    lower_program_with(st, program_depth(st))
}

/// Whether every reserved program function has a body.
pub open spec fn all_lowered(pending: Seq<PendingDecl>) -> bool {
    forall|i: int| 0 <= i < pending.len() ==> (#[trigger] pending[i]).body is Some
}

/// The program functions that reserved functions with bodies make.
pub open spec fn program_functions(pending: Seq<PendingDecl>) -> Seq<FunctionModel> {
    Seq::new(
        pending.len(),
        |i: int|
            FunctionModel {
                symbol: pending[i].symbol,
                parameters: pending[i].parameters,
                return_type: pending[i].return_type,
                body: pending[i].body->Some_0,
            },
    )
}

/// Whether `r` is the program that lowering the registered program `st`, whose
/// `main` is the non-generic function at index `main`, gives.
pub open spec fn program_as(r: Result<Program, Error>, st: Setup, main: int) -> bool {
    match lower_program(st) {
        Err(m) => r matches Err(e) && e@ == m,
        Ok(low) => {
            &&& all_lowered(low.pending)
            &&& r matches Ok(p) && p@.functions == program_functions(low.pending) && p@.strings == low.strings
                && p@.main == st.env.concrete[main].function
        },
    }
}

// ---------------------------------------------------------------------------
// Every reserved function is lowered
// ---------------------------------------------------------------------------

/// Whether `after` keeps every body that `before` has, and gives a body to every
/// function reserved since.
pub open spec fn bodies_kept(before: Seq<PendingDecl>, after: Seq<PendingDecl>) -> bool {
    &&& before.len() <= after.len()
    &&& forall|i: int| #![trigger after[i]] 0 <= i < before.len() && before[i].body is Some ==> after[i].body is Some
    &&& forall|i: int| #![trigger after[i]] before.len() <= i < after.len() ==> after[i].body is Some
}

/// Keeping bodies is transitive.
proof fn lemma_bodies_trans(a: Seq<PendingDecl>, b: Seq<PendingDecl>, c: Seq<PendingDecl>)
    requires
        bodies_kept(a, b),
        bodies_kept(b, c),
    ensures
        bodies_kept(a, c),
{
    assert forall|i: int| #![trigger c[i]] 0 <= i < a.len() && a[i].body is Some implies c[i].body is Some by {
        assert(b[i].body is Some);
    }
    assert forall|i: int| #![trigger c[i]] a.len() <= i < c.len() implies c[i].body is Some by {
        if i < b.len() {
            assert(b[i].body is Some);
        }
    }
}

/// Lowering a form keeps every body and lowers every function it reserves.
proof fn lemma_form_bodies(env: Env, st: Lowering, f: Form, scope: Seq<(Seq<char>, Ty)>, depth: nat)
    ensures
        lower_form(env, st, f, scope, depth) matches Ok((_, st2)) ==> bodies_kept(st.pending, st2.pending),
    decreases depth, f, 3int, 0int,
{
    if let Form::List(es) = f {
        if let Ok(op) = symbol_of(item(es, 0), "expression must begin with an operator"@) {
            if op == "do"@ {
                lemma_do_bodies(env, st, es, scope, depth);
            } else if op == "print"@ {
            } else if op == "+"@ {
                lemma_add_bodies(env, st, es, scope, depth);
            } else {
                lemma_call_bodies(env, st, op, es, scope, depth);
            }
        }
    }
}

/// Lowering forms in order keeps every body and lowers every function it reserves.
proof fn lemma_list_bodies(env: Env, st: Lowering, es: Seq<Form>, k: int, done: Seq<Typed>, scope: Seq<(Seq<char>, Ty)>, depth: nat)
    ensures
        lower_list(env, st, es, k, done, scope, depth) matches Ok((_, st2)) ==> bodies_kept(st.pending, st2.pending),
    decreases depth, es, 1int, es.len() - k,
{
    if 0 <= k < es.len() {
        lemma_form_bodies(env, st, es[k], scope, depth);
        if let Ok((t, st1)) = lower_form(env, st, es[k], scope, depth) {
            lemma_list_bodies(env, st1, es, k + 1, done.push(t), scope, depth);
            if let Ok((_, st2)) = lower_list(env, st1, es, k + 1, done.push(t), scope, depth) {
                lemma_bodies_trans(st.pending, st1.pending, st2.pending);
            }
        }
    }
}

/// Lowering a `do` keeps every body and lowers every function it reserves.
proof fn lemma_do_bodies(env: Env, st: Lowering, es: Seq<Form>, scope: Seq<(Seq<char>, Ty)>, depth: nat)
    ensures
        lower_do_form(env, st, es, scope, depth) matches Ok((_, st2)) ==> bodies_kept(st.pending, st2.pending),
    decreases depth, es, 2int, 0int,
{
    if es.len() > 1 {
        lemma_list_bodies(env, st, es, 1, seq![], scope, depth);
    }
}

/// Lowering an addition keeps every body and lowers every function it reserves.
proof fn lemma_add_bodies(env: Env, st: Lowering, es: Seq<Form>, scope: Seq<(Seq<char>, Ty)>, depth: nat)
    ensures
        lower_add_form(env, st, es, scope, depth) matches Ok((_, st2)) ==> bodies_kept(st.pending, st2.pending),
    decreases depth, es, 2int, 0int,
{
    if es.len() == 3 {
        lemma_form_bodies(env, st, es[1], scope, depth);
        if let Ok((l, st1)) = lower_form(env, st, es[1], scope, depth) {
            lemma_form_bodies(env, st1, es[2], scope, depth);
            if let Ok((r, st2)) = lower_form(env, st1, es[2], scope, depth) {
                lemma_bodies_trans(st.pending, st1.pending, st2.pending);
            }
        }
    }
}

/// Lowering a call keeps every body and lowers every function it reserves.
proof fn lemma_call_bodies(env: Env, st: Lowering, name: Seq<char>, es: Seq<Form>, scope: Seq<(Seq<char>, Ty)>, depth: nat)
    ensures
        lower_call_form(env, st, name, es, scope, depth) matches Ok((_, st2)) ==> bodies_kept(st.pending, st2.pending),
    decreases depth, es, 2int, 0int,
{
    lemma_list_bodies(env, st, es, 1, seq![], scope, depth);
    if let Ok((args, st1)) = lower_list(env, st, es, 1, seq![], scope, depth) {
        if index_of(concrete_names(env.concrete), name) is None {
            if let Some(gi) = index_of(function_names(env.generic), name) {
                if let Ok(s) = inferred(env.generic[gi], types_of(args)) {
                    if requirements_hold_from(env.impls, env.generic[gi], s, seq![], 0) is Ok && depth > 0 {
                        let g = env.generic[gi];
                        lemma_specialize_bodies(env, st1, g, type_arguments_of(g, s), s, (depth - 1) as nat);
                        if let Ok((f, st2)) = specialize_form(env, st1, g, type_arguments_of(g, s), s, (depth - 1) as nat) {
                            lemma_bodies_trans(st.pending, st1.pending, st2.pending);
                        }
                    }
                }
            }
        }
    }
}

/// Specializing keeps every body and lowers every function it reserves, the new
/// specialization included.
proof fn lemma_specialize_bodies(env: Env, st: Lowering, g: FunctionDecl, targs: Seq<Ty>, s: Seq<(Seq<char>, Ty)>, depth: nat)
    ensures
        specialize_form(env, st, g, targs, s, depth) matches Ok((_, st2)) ==> bodies_kept(st.pending, st2.pending),
    decreases depth, g.body, 5int, 0int,
{
    if specialization_index(st.specs, g.name, targs, 0) is None {
        let f = st.pending.len() as int;
        let reserved = PendingDecl {
            symbol: specialization_symbol(g.name, targs),
            parameters: instance_parameters(g, s),
            return_type: substituted(g.return_type, s),
            body: None,
        };
        let made = SpecializationDecl { name: g.name, type_arguments: targs, function: f, substitution: s };
        let st1 = Lowering { pending: st.pending.push(reserved), specs: st.specs.push(made), strings: st.strings };
        lemma_def_bodies(env, st1, g, f, s, depth);
        if let Ok(st2) = lower_def_form(env, st1, g, f, s, depth) {
            assert forall|i: int| #![trigger st2.pending[i]] 0 <= i < st.pending.len() && st.pending[i].body is Some implies st2.pending[i].body is Some by {
                assert(st1.pending[i] == st.pending[i]);
            }
        }
    }
}

/// Lowering a definition keeps every body, lowers every function it reserves, and
/// gives its own function a body.
proof fn lemma_def_bodies(env: Env, st: Lowering, d: FunctionDecl, f: int, s: Seq<(Seq<char>, Ty)>, depth: nat)
    requires
        0 <= f < st.pending.len(),
    ensures
        lower_def_form(env, st, d, f, s, depth) matches Ok(st2) ==> bodies_kept(st.pending, st2.pending)
            && st2.pending[f].body is Some,
    decreases depth, d.body, 4int, 0int,
{
    lemma_form_bodies(env, st, d.body, definition_scope(d, s), depth);
    if let Ok((b, st1)) = lower_form(env, st, d.body, definition_scope(d, s), depth) {
        if b.ty == substituted(d.return_type, s) {
            let st2 = Lowering { pending: st1.pending.update(f, PendingDecl { body: Some(b), ..st1.pending[f] }), ..st1 };
            assert(bodies_kept(st1.pending, st2.pending));
            lemma_bodies_trans(st.pending, st1.pending, st2.pending);
        }
    }
}

/// Lowering the non-generic functions from index `k` keeps every body, lowers every
/// function it reserves, and gives each of those functions a body.
proof fn lemma_concrete_bodies(env: Env, st: Lowering, k: int, depth: nat)
    requires
        0 <= k,
        forall|j: int| 0 <= j < env.concrete.len() ==> 0 <= (#[trigger] env.concrete[j]).function < st.pending.len(),
    ensures
        lower_concrete_from(env, st, k, depth) matches Ok(st2) ==> {
            &&& bodies_kept(st.pending, st2.pending)
            &&& forall|j: int| k <= j < env.concrete.len() ==> st2.pending[(#[trigger] env.concrete[j]).function].body is Some
        },
    decreases env.concrete.len() - k,
{
    if k < env.concrete.len() {
        let c = env.concrete[k];
        lemma_def_bodies(env, st, c.definition, c.function, seq![], depth);
        if let Ok(st1) = lower_def_form(env, st, c.definition, c.function, seq![], depth) {
            lemma_concrete_bodies(env, st1, k + 1, depth);
            if let Ok(st2) = lower_concrete_from(env, st1, k + 1, depth) {
                lemma_bodies_trans(st.pending, st1.pending, st2.pending);
                assert(st2.pending[c.function].body is Some);
            }
        }
    }
}

/// Lowering the implemented methods from index `k` keeps every body, lowers every
/// function it reserves, and gives each of those methods a body.
proof fn lemma_method_bodies(env: Env, st: Lowering, k: int, depth: nat)
    requires
        0 <= k,
        forall|j: int| 0 <= j < env.impls.len() ==> 0 <= (#[trigger] env.impls[j]).function < st.pending.len(),
    ensures
        lower_methods_from(env, st, k, depth) matches Ok(st2) ==> {
            &&& bodies_kept(st.pending, st2.pending)
            &&& forall|j: int| k <= j < env.impls.len() ==> st2.pending[(#[trigger] env.impls[j]).function].body is Some
        },
    decreases env.impls.len() - k,
{
    if k < env.impls.len() {
        let m = env.impls[k];
        lemma_def_bodies(env, st, m.definition, m.function, seq![], depth);
        if let Ok(st1) = lower_def_form(env, st, m.definition, m.function, seq![], depth) {
            lemma_method_bodies(env, st1, k + 1, depth);
            if let Ok(st2) = lower_methods_from(env, st1, k + 1, depth) {
                lemma_bodies_trans(st.pending, st1.pending, st2.pending);
                assert(st2.pending[m.function].body is Some);
            }
        }
    }
}

/// Whether program function `i` belongs to a non-generic function or to an
/// implemented method.
pub open spec fn owned_by(i: int, concrete: Seq<ConcreteDecl>, methods: Seq<ImplMethodDecl>) -> bool {
    (exists|k: int| 0 <= k < concrete.len() && #[trigger] concrete[k].function == i) || (exists|k: int|
        0 <= k < methods.len() && #[trigger] methods[k].function == i)
}

/// Whether each of the first `n` program functions belongs to a non-generic function
/// or to an implemented method.
pub open spec fn all_owned(n: int, concrete: Seq<ConcreteDecl>, methods: Seq<ImplMethodDecl>) -> bool {
    forall|i: int| 0 <= i < n ==> #[trigger] owned_by(i, concrete, methods)
}

/// Registering functions reserves program functions only for non-generic functions.
proof fn lemma_register_functions_owned(fs: Seq<FunctionDecl>, k: int, r: Registry)
    requires
        0 <= k <= fs.len(),
        all_owned(r.pending.len() as int, r.concrete, seq![]),
    ensures
        register_functions_from(fs, k, r) matches Ok(r2) ==> all_owned(r2.pending.len() as int, r2.concrete, seq![]),
    decreases fs.len() - k,
{
    if k < fs.len() {
        let f = fs[k];
        if !(concrete_names(r.concrete).contains(f.name) || function_names(r.generic).contains(f.name)) {
            if f.type_parameters.len() == 0 {
                let pending = PendingDecl {
                    symbol: function_symbol(f.name),
                    parameters: param_types(f.parameters),
                    return_type: f.return_type,
                    body: None,
                };
                let c = ConcreteDecl { definition: f, function: r.pending.len() as int };
                let r2 = Registry { concrete: r.concrete.push(c), generic: r.generic, pending: r.pending.push(pending) };
                assert forall|i: int| 0 <= i < r2.pending.len() implies #[trigger] owned_by(i, r2.concrete, seq![]) by {
                    if i < r.pending.len() {
                        assert(owned_by(i, r.concrete, seq![]));
                        let j = choose|j: int| 0 <= j < r.concrete.len() && #[trigger] r.concrete[j].function == i;
                        assert(r2.concrete[j] == r.concrete[j]);
                        assert(r2.concrete[j].function == i);
                    } else {
                        assert(r2.concrete[r.concrete.len() as int] == c);
                        assert(r2.concrete[r.concrete.len() as int].function == i);
                    }
                }
                lemma_register_functions_owned(fs, k + 1, r2);
            } else {
                lemma_register_functions_owned(fs, k + 1, Registry { generic: r.generic.push(f), ..r });
            }
        }
    }
}

/// Registering an implementation reserves program functions only for its methods.
proof fn lemma_signatures_owned(imp: ImplDecl, t: TraitDecl, j: int, methods: Seq<ImplMethodDecl>, pending: Seq<PendingDecl>, concrete: Seq<ConcreteDecl>)
    requires
        0 <= j <= t.methods.len(),
        all_owned(pending.len() as int, concrete, methods),
    ensures
        signatures_from(imp, t, j, methods, pending) matches Ok((ms, ps)) ==> all_owned(ps.len() as int, concrete, ms),
    decreases t.methods.len() - j,
{
    if j < t.methods.len() {
        let sig = t.methods[j];
        if let Some(di) = index_of(function_names(imp.methods), sig.name) {
            let def = imp.methods[di];
            let actual = param_types(def.parameters);
            if !(actual != expected_parameters(sig, imp.for_type) || def.return_type != self_replaced(sig.return_type, imp.for_type)) {
                let method = ImplMethodDecl {
                    trait_name: imp.trait_name,
                    for_type: imp.for_type,
                    signature: sig,
                    definition: def,
                    function: pending.len() as int,
                };
                let reserved = PendingDecl {
                    symbol: impl_symbol(imp.trait_name, imp.for_type, sig.name),
                    parameters: actual,
                    return_type: def.return_type,
                    body: None,
                };
                let ms = methods.push(method);
                let ps = pending.push(reserved);
                assert forall|i: int| 0 <= i < ps.len() implies #[trigger] owned_by(i, concrete, ms) by {
                    if i < pending.len() {
                        assert(owned_by(i, concrete, methods));
                        if exists|x: int| 0 <= x < methods.len() && #[trigger] methods[x].function == i {
                            let x = choose|x: int| 0 <= x < methods.len() && #[trigger] methods[x].function == i;
                            assert(ms[x] == methods[x]);
                            assert(ms[x].function == i);
                        }
                    } else {
                        assert(ms[methods.len() as int] == method);
                        assert(ms[methods.len() as int].function == i);
                    }
                }
                lemma_signatures_owned(imp, t, j + 1, ms, ps, concrete);
            }
        }
    }
}

/// Registering implementations reserves program functions only for their methods.
proof fn lemma_register_impls_owned(traits: Seq<TraitDecl>, impls: Seq<ImplDecl>, k: int, r: ImplRegistry, concrete: Seq<ConcreteDecl>)
    requires
        0 <= k <= impls.len(),
        all_owned(r.pending.len() as int, concrete, r.methods),
    ensures
        register_impls_from(traits, impls, k, r) matches Ok(r2) ==> all_owned(r2.pending.len() as int, concrete, r2.methods),
    decreases impls.len() - k,
{
    if k < impls.len() {
        let imp = impls[k];
        if let Some(ti) = index_of(trait_names(traits), imp.trait_name) {
            let t = traits[ti];
            lemma_signatures_owned(imp, t, 0, r.methods, r.pending, concrete);
            if let Ok((ms, ps)) = signatures_from(imp, t, 0, r.methods, r.pending) {
                let r2 = ImplRegistry { implemented: r.implemented.push((imp.trait_name, imp.for_type)), methods: ms, pending: ps };
                lemma_register_impls_owned(traits, impls, k + 1, r2, concrete);
            }
        }
    }
}

/// Every program function reserved at registration belongs to a non-generic function
/// or to an implemented method.
proof fn lemma_setup_owned(d: Decls)
    requires
        setup(d) is Ok,
    ensures
        all_owned(setup(d)->Ok_0.pending.len() as int, setup(d)->Ok_0.env.concrete, setup(d)->Ok_0.env.impls),
{
    let start = Registry { concrete: seq![], generic: seq![], pending: seq![] };
    lemma_register_functions_owned(d.functions, 0, start);
    let reg = register_functions_from(d.functions, 0, start)->Ok_0;
    let ir0 = ImplRegistry { implemented: seq![], methods: seq![], pending: reg.pending };
    lemma_register_impls_owned(d.traits, d.implementations, 0, ir0, reg.concrete);
}

/// Lowering a registered program gives every program function a body.
proof fn lemma_program_lowered(st: Setup)
    requires
        all_owned(st.pending.len() as int, st.env.concrete, st.env.impls),
        forall|j: int| 0 <= j < st.env.concrete.len() ==> 0 <= (#[trigger] st.env.concrete[j]).function < st.pending.len(),
        forall|j: int| 0 <= j < st.env.impls.len() ==> 0 <= (#[trigger] st.env.impls[j]).function < st.pending.len(),
    ensures
        lower_program(st) matches Ok(low) ==> all_lowered(low.pending),
{
    let env = st.env;
    let start = Lowering { pending: st.pending, specs: seq![], strings: seq![] };
    let depth = program_depth(st);
    lemma_concrete_bodies(env, start, 0, depth);
    if let Ok(low1) = lower_concrete_from(env, start, 0, depth) {
        lemma_method_bodies(env, low1, 0, depth);
        if let Ok(low) = lower_methods_from(env, low1, 0, depth) {
            lemma_bodies_trans(start.pending, low1.pending, low.pending);
            assert forall|i: int| 0 <= i < low.pending.len() implies (#[trigger] low.pending[i]).body is Some by {
                if i < st.pending.len() {
                    assert(owned_by(i, env.concrete, env.impls));
                    if exists|k: int| 0 <= k < env.concrete.len() && #[trigger] env.concrete[k].function == i {
                        let k = choose|k: int| 0 <= k < env.concrete.len() && #[trigger] env.concrete[k].function == i;
                        assert(low1.pending[env.concrete[k].function].body is Some);
                    } else {
                        let k = choose|k: int| 0 <= k < env.impls.len() && #[trigger] env.impls[k].function == i;
                        assert(low.pending[env.impls[k].function].body is Some);
                    }
                }
            }
        }
    }
}

/// Checks that `main` has the entry signature.
fn check_main_signature(definition: &FunctionDefinition) -> (r: Result<(), Error>)
    ensures
        match main_signature(definition@) {
            Ok(_) => r is Ok,
            Err(m) => r matches Err(e) && e@ == m,
        },
{
    if definition.type_parameters.len() != 0 {
        return Err(error("main cannot be generic"));
    }
    let entry = Type::Array(Box::new(Type::String));
    assert(Type::String@ == Ty::String);
    assert(entry@ == Ty::Array(Box::new(Ty::String)));
    assert(Type::Int@ == Ty::Int);
    if definition.parameters.len() != 1 || !definition.parameters[0].ty.same(&entry) {
        proof {
            if definition.parameters@.len() == 1 {
                assert(definition@.parameters[0] == definition.parameters@[0]@);
            }
        }
        return Err(error("main must accept exactly one `Array String` parameter"));
    }
    assert(definition@.parameters[0] == definition.parameters@[0]@);
    if !definition.return_type.same(&Type::Int) {
        return Err(error("main must return `Int`"));
    }
    Ok(())
}

impl Analyzer {
    /// Checks `main` and the generic functions, lowers every non-generic function and
    /// implemented method, and collects the program.
    fn analyze(self) -> (r: Result<Program, Error>)
        requires
            self.ready(),
            self.specializations@.len() == 0,
            self.strings@.len() == 0,
            all_owned(self.pending_functions@.len() as int, self.env().concrete, self.env().impls),
            main_check(self.env()) is Ok && generics_check_from(self.env(), 0) is Ok ==> lowering_ends(
                Setup { env: self.env(), pending: views(self.pending_functions@) },
            ),
        ensures
            match main_check(self.env()) {
                Err(m) => r matches Err(e) && e@ == m,
                Ok(i) => match generics_check_from(self.env(), 0) {
                    Err(m) => r matches Err(e) && e@ == m,
                    Ok(_) => {
                        &&& program_as(r, Setup { env: self.env(), pending: views(self.pending_functions@) }, i)
                        &&& r matches Ok(p) ==> extends_setup(p@, Setup { env: self.env(), pending: views(self.pending_functions@) }, i)
                        &&& lower_program(Setup { env: self.env(), pending: views(self.pending_functions@) }) matches Ok(low)
                            ==> distinct_specializations(low.specs)
                    },
                },
            },
    {
        let ghost start: Analyzer = self;
        let ghost env = self.env();
        let mut analyzer = self;
        let main = match analyzer.find_concrete("main") {
            Some(i) => i,
            None => {
                return Err(error("program must define `main`"));
            },
        };
        proof {
            lemma_index_from(concrete_names(env.concrete), "main"@, 0);
            assert(env.concrete[main as int] == analyzer.concrete_functions@[main as int]@);
        }
        match check_main_signature(&analyzer.concrete_functions[main].definition) {
            Ok(_) => {},
            Err(e) => {
                return Err(e);
            },
        }
        let main_function = analyzer.concrete_functions[main].function;
        let mut k: usize = 0;
        while k < analyzer.generic_functions.len()
            invariant
                analyzer == start,
                env == analyzer.env(),
                env == self.env(),
                main_check(env) == Ok::<int, Seq<char>>(main as int),
                k <= analyzer.generic_functions@.len(),
                generics_check_from(env, 0) == generics_check_from(env, k as int),
            decreases analyzer.generic_functions@.len() - k,
        {
            assert(env.generic[k as int] == analyzer.generic_functions@[k as int]@);
            match analyzer.validate_generic_function(&analyzer.generic_functions[k]) {
                Ok(_) => {},
                Err(e) => {
                    return Err(e);
                },
            }
            k += 1;
        }
        let no_substitution: Substitution = Vec::new();
        assert(bindings(no_substitution@) =~= seq![]);
        let ghost setup_state = Setup { env, pending: views(start.pending_functions@) };
        let ghost fuel = program_depth(setup_state);
        assert(lower_program(setup_state) == lower_program_with(setup_state, fuel));
        assert(!exhausted(lower_program_with(setup_state, fuel)));
        assert(start.lowering() == (Lowering { pending: setup_state.pending, specs: seq![], strings: seq![] })) by {
            assert(views(start.specializations@) =~= Seq::<SpecializationDecl>::empty());
            assert(start.lowering().strings =~= Seq::<Seq<u8>>::empty());
        }
        assert(!exhausted(lower_concrete_from(env, start.lowering(), 0, fuel)));
        let mut k: usize = 0;
        while k < analyzer.concrete_functions.len()
            invariant
                setup_state == (Setup { env, pending: views(start.pending_functions@) }),
                start.lowering() == (Lowering { pending: setup_state.pending, specs: seq![], strings: seq![] }),
                start == self,
                lower_concrete_from(env, start.lowering(), 0, fuel) == lower_concrete_from(env, analyzer.lowering(), k as int, fuel),
                !exhausted(lower_concrete_from(env, start.lowering(), 0, fuel)),
                lower_program(setup_state) == lower_program_with(setup_state, fuel),
                analyzer.ready(),
                start.grown_into(&analyzer),
                start.ready(),
                env == analyzer.env(),
                bindings(no_substitution@) == Seq::<(Seq<char>, Ty)>::empty(),
                env == self.env(),
                main_check(env) == Ok::<int, Seq<char>>(main as int),
                generics_check_from(env, 0) is Ok,
                k <= analyzer.concrete_functions@.len(),
            decreases analyzer.concrete_functions@.len() - k,
        {
            let definition = analyzer.concrete_functions[k].definition.duplicate();
            let function = analyzer.concrete_functions[k].function;
            proof {
                assert(env.concrete[k as int] == analyzer.concrete_functions@[k as int]@);
                assert(concrete_ready(env.concrete[k as int], views(analyzer.pending_functions@)));
                assert(views(analyzer.pending_functions@)[function as int] == analyzer.pending_functions@[function as int]@);
                lemma_instance_nothing(definition@);
            }
            proof {
                let df = lower_def_form(env, analyzer.lowering(), definition@, function as int, seq![], fuel);
                if df is Err {
                    assert(lower_concrete_from(env, analyzer.lowering(), k as int, fuel) == Err::<Lowering, Seq<char>>(df->Err_0));
                }
            }
            let ghost before: Analyzer = analyzer;
            match analyzer.lower_definition(&definition, function, &no_substitution, Ghost(fuel)) {
                Ok(_) => {},
                Err(e) => {
                    return Err(e);
                },
            }
            proof {
                start.lemma_grown_trans(&before, &analyzer);
            }
            k += 1;
        }
        let ghost concrete_done = analyzer.lowering();
        assert(lower_concrete_from(env, start.lowering(), 0, fuel) == Ok::<Lowering, Seq<char>>(concrete_done));
        assert(lower_program_with(setup_state, fuel) == lower_methods_from(env, concrete_done, 0, fuel));
        let mut k: usize = 0;
        while k < analyzer.impl_methods.len()
            invariant
                setup_state == (Setup { env, pending: views(start.pending_functions@) }),
                start.lowering() == (Lowering { pending: setup_state.pending, specs: seq![], strings: seq![] }),
                start == self,
                lower_concrete_from(env, start.lowering(), 0, fuel) == Ok::<Lowering, Seq<char>>(concrete_done),
                lower_methods_from(env, concrete_done, 0, fuel) == lower_methods_from(env, analyzer.lowering(), k as int, fuel),
                !exhausted(lower_methods_from(env, concrete_done, 0, fuel)),
                lower_program(setup_state) == lower_program_with(setup_state, fuel),
                analyzer.ready(),
                start.grown_into(&analyzer),
                start.ready(),
                env == analyzer.env(),
                bindings(no_substitution@) == Seq::<(Seq<char>, Ty)>::empty(),
                env == self.env(),
                main_check(env) == Ok::<int, Seq<char>>(main as int),
                generics_check_from(env, 0) is Ok,
                k <= analyzer.impl_methods@.len(),
            decreases analyzer.impl_methods@.len() - k,
        {
            let definition = analyzer.impl_methods[k].definition.duplicate();
            let function = analyzer.impl_methods[k].function;
            proof {
                assert(env.impls[k as int] == analyzer.impl_methods@[k as int]@);
                assert(method_ready(env.impls[k as int], views(analyzer.pending_functions@)));
                assert(views(analyzer.pending_functions@)[function as int] == analyzer.pending_functions@[function as int]@);
                lemma_instance_nothing(definition@);
            }
            proof {
                let df = lower_def_form(env, analyzer.lowering(), definition@, function as int, seq![], fuel);
                if df is Err {
                    assert(lower_methods_from(env, analyzer.lowering(), k as int, fuel) == Err::<Lowering, Seq<char>>(df->Err_0));
                }
            }
            let ghost before: Analyzer = analyzer;
            match analyzer.lower_definition(&definition, function, &no_substitution, Ghost(fuel)) {
                Ok(_) => {},
                Err(e) => {
                    return Err(e);
                },
            }
            proof {
                start.lemma_grown_trans(&before, &analyzer);
            }
            k += 1;
        }
        let ghost all = views(analyzer.pending_functions@);
        let ghost low = analyzer.lowering();
        assert(lower_program_with(setup_state, fuel) == Ok::<Lowering, Seq<char>>(low));
        assert(distinct_specializations(low.specs));
        proof {
            assert forall|j: int| 0 <= j < env.concrete.len() implies 0 <= (#[trigger] env.concrete[j]).function < setup_state.pending.len() by {
                assert(concrete_ready(env.concrete[j], views(start.pending_functions@)));
            }
            assert forall|j: int| 0 <= j < env.impls.len() implies 0 <= (#[trigger] env.impls[j]).function < setup_state.pending.len() by {
                assert(method_ready(env.impls[j], views(start.pending_functions@)));
            }
            lemma_program_lowered(setup_state);
        }
        let ghost sigs = pending_signatures(all);
        let strings = analyzer.strings;
        let ghost n = strings@.len();
        let mut pending = analyzer.pending_functions;
        let mut functions: Vec<Function> = Vec::new();
        while pending.len() > 0
            invariant
                env == self.env(),
                main_check(env) == Ok::<int, Seq<char>>(main as int),
                generics_check_from(env, 0) is Ok,
                setup_state == (Setup { env, pending: views(start.pending_functions@) }),
                start == self,
                lower_program_with(setup_state, fuel) == Ok::<Lowering, Seq<char>>(low),
                low.pending == all,
                distinct_specializations(low.specs),
                all_lowered(all),
                forall|j: int| 0 <= j < functions@.len() ==> (#[trigger] all[j]).body is Some,
                all.len() == functions@.len() + pending@.len(),
                views(pending@) == all.subrange(functions@.len() as int, all.len() as int),
                forall|j: int|
                    0 <= j < functions@.len() ==> reserved_in(all[j], #[trigger] functions@[j]@) && all[j].body
                        == Some(functions@[j]@.body),
            decreases pending@.len(),
        {
            let ghost index = functions@.len() as int;
            let ghost rest = views(pending@);
            let p = pending.remove(0);
            assert(rest[0] == p@);
            assert(views(pending@) =~= rest.drop_first());
            let body = match p.body {
                Some(b) => b,
                None => {
                    assert(!all_lowered(all)) by {
                        assert(all[index] == p@);
                    }
                    return Err(error("compiler did not lower a function body"));
                },
            };
            let f = Function { symbol: p.symbol, parameters: p.parameters, return_type: p.return_type, body };
            functions.push(f);
            assert(views(pending@) =~= all.subrange(functions@.len() as int, all.len() as int));
        }
        let program = Program { strings, functions, main: main_function };
        proof {
            let pm = program@;
            assert(all_lowered(all));
            assert(pm.functions =~= program_functions(all)) by {
                assert forall|i: int| 0 <= i < pm.functions.len() implies pm.functions[i] == program_functions(all)[i] by {
                    assert(reserved_in(all[i], functions@[i]@));
                }
            }
            assert(signatures(pm.functions) =~= sigs);
            assert(pm.strings.len() == n);
            let c = env.concrete[main as int];
            assert(concrete_ready(c, all));
            assert(c.definition.name == "main"@);
            assert(pm.functions[pm.main].parameters =~= seq![Ty::Array(Box::new(Ty::String))]);
            assert forall|i: int| #![trigger pm.functions[i]] 0 <= i < pm.functions.len() implies {
                &&& forall|j: int| 0 <= j < pm.functions[i].parameters.len() ==> is_concrete(#[trigger] pm.functions[i].parameters[j])
                &&& is_concrete(pm.functions[i].return_type)
                &&& well_typed(pm.functions[i].body, pm.functions[i].parameters, signatures(pm.functions), pm.strings.len())
                &&& pm.functions[i].body.ty == pm.functions[i].return_type
            } by {
                assert(pending_ready(all[i], sigs, n));
                assert(reserved_in(all[i], functions@[i]@));
            }
            assert forall|j: int| 0 <= j < start.pending_functions@.len() implies reserved_in(
                #[trigger] views(start.pending_functions@)[j],
                pm.functions[j],
            ) by {
                assert(same_reservation(start.pending_functions@[j]@, all[j]));
                assert(reserved_in(all[j], functions@[j]@));
            }
        }
        Ok(program)
    }
}

/// The checks that come before lowering, on a program's top-level forms: its
/// declarations are read and registered, `main` has the entry signature, and every
/// generic function checks. `Ok` holds the registered declarations and the index of
/// `main` among the non-generic functions.
pub open spec fn checked(es: Seq<Form>) -> Result<(Setup, int), Seq<char>> {
    match program_declarations(es) {
        Err(m) => Err(m),
        Ok(d) => match setup(d) {
            Err(m) => Err(m),
            Ok(st) => match main_check(st.env) {
                Err(m) => Err(m),
                Ok(i) => match generics_check_from(st.env, 0) {
                    Err(m) => Err(m),
                    Ok(_) => Ok((st, i)),
                },
            },
        },
    }
}

/// Checks a program's top-level forms and lowers them into a typed program.
///
/// Generic functions are specialized as deeply as the program's calls nest; the
/// caller guarantees that this nesting ends (`lowering_ends`), as a program whose
/// specializations call ever new ones would lower without end.
pub fn analyze(expressions: Vec<Expression>) -> (r: Result<Program, Error>)
    requires
        checked(views(expressions@)) matches Ok((st, i)) ==> lowering_ends(st),
    ensures
        match checked(views(expressions@)) {
            Err(m) => r matches Err(e) && e@ == m,
            Ok((st, i)) => {
                &&& program_as(r, st, i)
                &&& r matches Ok(p) ==> extends_setup(p@, st, i)
                &&& lower_program(st) matches Ok(low) ==> distinct_specializations(low.specs)
            },
        },
{
    let declarations = match parse_declarations(&expressions) {
        Ok(d) => d,
        Err(e) => {
            return Err(e);
        },
    };
    let ghost d = declarations@;
    let analyzer = match Analyzer::new(declarations) {
        Ok(a) => a,
        Err(e) => {
            return Err(e);
        },
    };
    proof {
        lemma_setup_owned(d);
    }
    analyzer.analyze()
}

// ---------------------------------------------------------------------------
// One program function per specialization
// ---------------------------------------------------------------------------

/// Lowering a form only adds specializations.
proof fn lemma_form_specs(env: Env, st: Lowering, f: Form, scope: Seq<(Seq<char>, Ty)>, depth: nat)
    ensures
        lower_form(env, st, f, scope, depth) matches Ok((_, st2)) ==> is_prefix(st.specs, st2.specs),
    decreases depth, f, 3int, 0int,
{
    if let Form::List(es) = f {
        if let Ok(op) = symbol_of(item(es, 0), "expression must begin with an operator"@) {
            if op == "do"@ {
                if es.len() > 1 {
                    lemma_list_specs(env, st, es, 1, seq![], scope, depth);
                }
            } else if op == "print"@ {
            } else if op == "+"@ {
                lemma_add_specs(env, st, es, scope, depth);
            } else {
                lemma_call_specs(env, st, op, es, scope, depth);
            }
        }
    }
}

/// Lowering forms in order only adds specializations.
proof fn lemma_list_specs(env: Env, st: Lowering, es: Seq<Form>, k: int, done: Seq<Typed>, scope: Seq<(Seq<char>, Ty)>, depth: nat)
    ensures
        lower_list(env, st, es, k, done, scope, depth) matches Ok((_, st2)) ==> is_prefix(st.specs, st2.specs),
    decreases depth, es, 1int, es.len() - k,
{
    if 0 <= k < es.len() {
        lemma_form_specs(env, st, es[k], scope, depth);
        if let Ok((t, st1)) = lower_form(env, st, es[k], scope, depth) {
            lemma_list_specs(env, st1, es, k + 1, done.push(t), scope, depth);
        }
    }
}

/// Lowering an addition only adds specializations.
proof fn lemma_add_specs(env: Env, st: Lowering, es: Seq<Form>, scope: Seq<(Seq<char>, Ty)>, depth: nat)
    ensures
        lower_add_form(env, st, es, scope, depth) matches Ok((_, st2)) ==> is_prefix(st.specs, st2.specs),
    decreases depth, es, 2int, 0int,
{
    if es.len() == 3 {
        lemma_form_specs(env, st, es[1], scope, depth);
        if let Ok((l, st1)) = lower_form(env, st, es[1], scope, depth) {
            lemma_form_specs(env, st1, es[2], scope, depth);
        }
    }
}

/// Lowering a call only adds specializations.
proof fn lemma_call_specs(env: Env, st: Lowering, name: Seq<char>, es: Seq<Form>, scope: Seq<(Seq<char>, Ty)>, depth: nat)
    ensures
        lower_call_form(env, st, name, es, scope, depth) matches Ok((_, st2)) ==> is_prefix(st.specs, st2.specs),
    decreases depth, es, 2int, 0int,
{
    lemma_list_specs(env, st, es, 1, seq![], scope, depth);
    if let Ok((args, st1)) = lower_list(env, st, es, 1, seq![], scope, depth) {
        if index_of(concrete_names(env.concrete), name) is None {
            if let Some(gi) = index_of(function_names(env.generic), name) {
                if let Ok(s) = inferred(env.generic[gi], types_of(args)) {
                    if requirements_hold_from(env.impls, env.generic[gi], s, seq![], 0) is Ok && depth > 0 {
                        let g = env.generic[gi];
                        lemma_specialize_specs(env, st1, g, type_arguments_of(g, s), s, (depth - 1) as nat);
                    }
                }
            }
        }
    }
}

/// Specializing only adds specializations; a new one comes right after those that
/// were there.
proof fn lemma_specialize_specs(env: Env, st: Lowering, g: FunctionDecl, targs: Seq<Ty>, s: Seq<(Seq<char>, Ty)>, depth: nat)
    ensures
        specialize_form(env, st, g, targs, s, depth) matches Ok((f, st2)) ==> {
            &&& is_prefix(st.specs, st2.specs)
            &&& specialization_index(st.specs, g.name, targs, 0) is None ==> st.specs.len() < st2.specs.len() && st2.specs[st.specs.len() as int]
                == (SpecializationDecl { name: g.name, type_arguments: targs, function: f, substitution: s })
        },
    decreases depth, g.body, 5int, 0int,
{
    if specialization_index(st.specs, g.name, targs, 0) is None {
        let f = st.pending.len() as int;
        let reserved = PendingDecl {
            symbol: specialization_symbol(g.name, targs),
            parameters: instance_parameters(g, s),
            return_type: substituted(g.return_type, s),
            body: None,
        };
        let made = SpecializationDecl { name: g.name, type_arguments: targs, function: f, substitution: s };
        let st1 = Lowering { pending: st.pending.push(reserved), specs: st.specs.push(made), strings: st.strings };
        lemma_form_specs(env, st1, g.body, definition_scope(g, s), depth);
        if let Ok((b, st3)) = lower_form(env, st1, g.body, definition_scope(g, s), depth) {
            assert(st1.specs[st.specs.len() as int] == made);
        }
    }
}

/// The first specialization of a name at some type arguments stays the first when
/// specializations are added after it.
proof fn lemma_index_kept(a: Seq<SpecializationDecl>, b: Seq<SpecializationDecl>, name: Seq<char>, targs: Seq<Ty>, k: int)
    requires
        0 <= k,
        is_prefix(a, b),
        specialization_index(a, name, targs, k) is Some,
    ensures
        specialization_index(b, name, targs, k) == specialization_index(a, name, targs, k),
    decreases a.len() - k,
{
    if k < a.len() && !(a[k].name == name && a[k].type_arguments == targs) {
        lemma_index_kept(a, b, name, targs, k + 1);
    }
}

/// Where no specialization of a name at some type arguments is found, one added
/// after the others is.
proof fn lemma_index_found(a: Seq<SpecializationDecl>, b: Seq<SpecializationDecl>, name: Seq<char>, targs: Seq<Ty>, k: int)
    requires
        0 <= k <= a.len(),
        a.len() < b.len(),
        is_prefix(a, b),
        b[a.len() as int].name == name,
        b[a.len() as int].type_arguments == targs,
        specialization_index(a, name, targs, k) is None,
    ensures
        specialization_index(b, name, targs, k) == Some(a.len() as int),
    decreases a.len() - k,
{
    if k < a.len() {
        lemma_index_found(a, b, name, targs, k + 1);
    }
}

/// One program function per generic function and type arguments: once a generic
/// function has been specialized at some type arguments, specializing a function of
/// that name at those type arguments again, at any later point of lowering (where
/// specializations have only been added), gives the same program function and
/// changes nothing.
pub proof fn lemma_specialization_reused(
    env: Env,
    st: Lowering,
    g: FunctionDecl,
    targs: Seq<Ty>,
    s: Seq<(Seq<char>, Ty)>,
    depth: nat,
    later: Lowering,
    g2: FunctionDecl,
    s2: Seq<(Seq<char>, Ty)>,
    depth2: nat,
)
    requires
        specialize_form(env, st, g, targs, s, depth) is Ok,
        is_prefix(specialize_form(env, st, g, targs, s, depth)->Ok_0.1.specs, later.specs),
        g2.name == g.name,
    ensures
        specialize_form(env, later, g2, targs, s2, depth2) == Ok::<(int, Lowering), Seq<char>>((specialize_form(env, st, g, targs, s, depth)->Ok_0.0, later)),
{
    let (f, st1) = specialize_form(env, st, g, targs, s, depth)->Ok_0;
    lemma_specialize_specs(env, st, g, targs, s, depth);
    assert(is_prefix(st.specs, later.specs)) by {
        assert forall|i: int| 0 <= i < st.specs.len() implies st.specs[i] == later.specs[i] by {
            assert(st.specs[i] == st1.specs[i]);
        }
    }
    match specialization_index(st.specs, g.name, targs, 0) {
        Some(k) => {
            lemma_index_valid(st.specs, g.name, targs, 0);
            lemma_index_kept(st.specs, later.specs, g.name, targs, 0);
            assert(later.specs[k] == st.specs[k]);
        },
        None => {
            assert(later.specs[st.specs.len() as int] == st1.specs[st.specs.len() as int]);
            lemma_index_found(st.specs, later.specs, g.name, targs, 0);
        },
    }
}

/// A found specialization is one of the list, with the name and type arguments
/// looked for.
proof fn lemma_index_valid(a: Seq<SpecializationDecl>, name: Seq<char>, targs: Seq<Ty>, k: int)
    ensures
        specialization_index(a, name, targs, k) matches Some(i) ==> k <= i < a.len() && a[i].name == name && a[i].type_arguments == targs,
    decreases a.len() - k,
{
    if 0 <= k < a.len() && !(a[k].name == name && a[k].type_arguments == targs) {
        lemma_index_valid(a, name, targs, k + 1);
    }
}


/// Each requirement of `g.constraints[j..=k]` is met when the check from `j` succeeds.
proof fn lemma_requirement_met(impls: Seq<ImplMethodDecl>, g: FunctionDecl, s: Seq<(Seq<char>, Ty)>, caller: Seq<Requirement>, j: int, k: int)
    requires
        0 <= j <= k < g.constraints.len(),
        requirements_hold_from(impls, g, s, caller, j) is Ok,
    ensures
        bound(s, g.constraints[k].parameter) matches Some(ty) && match ty {
            Ty::Parameter(p) => required(caller, p, g.constraints[k].trait_name),
            _ => implemented(impls, g.constraints[k].trait_name, ty),
        },
    decreases k - j,
{
    if j < k {
        lemma_requirement_met(impls, g, s, caller, j + 1, k);
    }
}

/// A generic function's requirements hold only where the program says so: when the
/// requirements of a call are met, each requirement `(implements T Tr)` whose `T`
/// stands for a concrete type has an implementation of `Tr` declared for exactly that
/// type, and one whose `T` stands for a type parameter `P` of the caller is a
/// requirement of the caller that `P` implements `Tr`.
pub proof fn lemma_requirements_need_implementations(
    impls: Seq<ImplMethodDecl>,
    g: FunctionDecl,
    s: Seq<(Seq<char>, Ty)>,
    caller: Seq<Requirement>,
    k: int,
)
    requires
        requirements_hold_from(impls, g, s, caller, 0) is Ok,
        0 <= k < g.constraints.len(),
    ensures
        bound(s, g.constraints[k].parameter) matches Some(ty) && match ty {
            Ty::Parameter(p) => exists|i: int|
                0 <= i < caller.len() && caller[i].parameter == p && caller[i].trait_name == g.constraints[k].trait_name,
            _ => exists|i: int|
                0 <= i < impls.len() && impls[i].trait_name == g.constraints[k].trait_name && impls[i].for_type == ty,
        },
{
    lemma_requirement_met(impls, g, s, caller, 0, k);
}

/// A trait method is callable only where the program says so: when a call of method
/// `m` of trait `t` is available, the type that `Self` stands for has an
/// implementation of `t` declared for exactly that type, or, for a type parameter of
/// the caller, the caller requires it to implement `t`.
pub proof fn lemma_trait_method_needs_implementation(
    impls: Seq<ImplMethodDecl>,
    t: TraitDecl,
    m: MethodDecl,
    args: Seq<Ty>,
    cs: Seq<Requirement>,
)
    requires
        method_candidate(impls, t, m, args, cs) is Some,
    ensures
        trait_signature_match(m, args) matches Some(ty) && match ty {
            Ty::Parameter(p) => exists|i: int| 0 <= i < cs.len() && cs[i].parameter == p && cs[i].trait_name == t.name,
            _ => exists|i: int| 0 <= i < impls.len() && impls[i].trait_name == t.name && impls[i].for_type == ty,
        },
{
}

/// Every implemented method that a call in a non-generic function may resolve to has
/// the called name and takes exactly the argument types, and they are listed in
/// declaration order.
pub proof fn lemma_method_matches_fit(impls: Seq<ImplMethodDecl>, name: Seq<char>, args: Seq<Ty>, j: int)
    requires
        0 <= j,
    ensures
        forall|x: int|
            0 <= x < method_matches(impls, name, args, j).len() ==> {
                let i = #[trigger] method_matches(impls, name, args, j)[x];
                &&& j <= i < impls.len()
                &&& impls[i].signature.name == name
                &&& param_types(impls[i].definition.parameters) == args
            },
        forall|x: int, y: int|
            0 <= x < y < method_matches(impls, name, args, j).len() ==> method_matches(impls, name, args, j)[x]
                < method_matches(impls, name, args, j)[y],
    decreases impls.len() - j,
{
    if j < impls.len() {
        lemma_method_matches_fit(impls, name, args, j + 1);
    }
}

/// The type of the last of `es[k..]` is the type of the whole sequence, and each of
/// them has a type.
proof fn lemma_sequence_type_last(
    env: Env,
    es: Seq<Form>,
    k: int,
    last: Ty,
    bindings: Seq<(Seq<char>, Ty)>,
    cs: Seq<Requirement>,
)
    requires
        0 <= k < es.len(),
        sequence_type(env, es, k, last, bindings, cs) is Ok,
    ensures
        sequence_type(env, es, k, last, bindings, cs) == form_type(env, es[es.len() - 1], bindings, cs),
        forall|j: int| k <= j < es.len() ==> #[trigger] form_type(env, es[j], bindings, cs) is Ok,
    decreases es.len() - k,
{
    let t = form_type(env, es[k], bindings, cs)->Ok_0;
    assert(sequence_type(env, es, k, last, bindings, cs) == sequence_type(env, es, k + 1, t, bindings, cs));
    if k + 1 < es.len() {
        lemma_sequence_type_last(env, es, k + 1, t, bindings, cs);
    } else {
        assert(sequence_type(env, es, k + 1, t, bindings, cs) == Ok::<Ty, Seq<char>>(t));
    }
}

/// A `do` has the type of its last expression: in a generic function's body, when
/// `(do e1 ... en)` has a type, each `ei` has a type and `en` has that same type.
pub proof fn lemma_do_has_type_of_last(env: Env, es: Seq<Form>, bindings: Seq<(Seq<char>, Ty)>, cs: Seq<Requirement>)
    requires
        es.len() >= 2,
        es[0] == Form::Symbol("do"@),
        form_type(env, Form::List(es), bindings, cs) is Ok,
    ensures
        form_type(env, es[es.len() - 1], bindings, cs) == form_type(env, Form::List(es), bindings, cs),
        forall|j: int| 1 <= j < es.len() ==> #[trigger] form_type(env, es[j], bindings, cs) is Ok,
{
    assert(form_type(env, Form::List(es), bindings, cs) == sequence_type(env, es, 1, Ty::Unit, bindings, cs));
    lemma_sequence_type_last(env, es, 1, Ty::Unit, bindings, cs);
}

/// `+` adds integers: in a generic function's body, when `(+ a b)` has a type, that
/// type is `Int` and so are the types of `a` and `b`.
pub proof fn lemma_addition_is_integer(env: Env, es: Seq<Form>, bindings: Seq<(Seq<char>, Ty)>, cs: Seq<Requirement>)
    requires
        es.len() >= 1,
        es[0] == Form::Symbol("+"@),
        form_type(env, Form::List(es), bindings, cs) is Ok,
    ensures
        es.len() == 3,
        form_type(env, Form::List(es), bindings, cs) == Ok::<Ty, Seq<char>>(Ty::Int),
        form_type(env, es[1], bindings, cs) == Ok::<Ty, Seq<char>>(Ty::Int),
        form_type(env, es[2], bindings, cs) == Ok::<Ty, Seq<char>>(Ty::Int),
{
    reveal_strlit("+");
    reveal_strlit("do");
    reveal_strlit("print");
    assert("+"@ != "do"@) by {
        assert("+"@.len() != "do"@.len());
    }
    assert("+"@ != "print"@) by {
        assert("+"@.len() != "print"@.len());
    }
    assert(symbol_of(item(es, 0), "expression must begin with an operator"@) == Ok::<Seq<char>, Seq<char>>("+"@));
}

/// A name in a function body is lowered to a reference to the function's first
/// parameter of that name, with that parameter's type; a name that no parameter has
/// is refused.
pub proof fn lemma_name_is_its_parameter(env: Env, st: Lowering, name: Seq<char>, scope: Seq<(Seq<char>, Ty)>, depth: nat)
    ensures
        match lower_form(env, st, Form::Symbol(name), scope, depth) {
            Ok((e, st1)) => e.kind matches Kind::Parameter(i) && 0 <= i < scope.len() && scope[i].0 == name
                && e.ty == scope[i].1 && st1 == st && forall|j: int| 0 <= j < i ==> scope[j].0 != name,
            Err(_) => forall|j: int| 0 <= j < scope.len() ==> scope[j].0 != name,
        },
{
    let names = scope_names(scope);
    lemma_index_from(names, name, 0);
    assert forall|j: int| 0 <= j < scope.len() implies names[j] == scope[j].0 by {}
    match index_of(names, name) {
        Some(i) => {
            assert(lower_form(env, st, Form::Symbol(name), scope, depth) == Ok::<(Typed, Lowering), Seq<char>>(
                (Typed { ty: scope[i].1, kind: Kind::Parameter(i) }, st),
            ));
            assert forall|j: int| 0 <= j < i implies scope[j].0 != name by {
                assert(names[j] != name);
            }
        },
        None => {
            assert(lower_form(env, st, Form::Symbol(name), scope, depth) is Err);
            assert forall|j: int| 0 <= j < scope.len() implies scope[j].0 != name by {
                assert(names[j] != name);
            }
        },
    }
}

} // verus!
