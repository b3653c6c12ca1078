//! Top-level declarations: traits, trait implementations and functions, read from
//! s-expressions.

use vstd::prelude::*;

use crate::syntax::{Expression, Form};
use crate::text::{join3, same_text};
use crate::types::{error, is_scoped, Ty, Type};
use crate::Error;

verus! {

// ---------------------------------------------------------------------------
// Data
// ---------------------------------------------------------------------------

/// The values of a sequence.
pub open spec fn views<T: View>(v: Seq<T>) -> Seq<T::V> {
    Seq::new(v.len(), |i: int| v[i]@)
}

/// A named, typed function parameter.
pub struct Parameter {
    pub name: String,
    pub ty: Type,
}

/// The value of a parameter.
pub struct Param {
    pub name: Seq<char>,
    pub ty: Ty,
}

impl View for Parameter {
    type V = Param;

    open spec fn view(&self) -> Param {
        Param { name: self.name@, ty: self.ty@ }
    }
}

/// A requirement `(implements T Trait)` of a generic function.
pub struct Constraint {
    pub parameter: String,
    pub trait_name: String,
}

/// The value of a requirement.
pub struct Requirement {
    pub parameter: Seq<char>,
    pub trait_name: Seq<char>,
}

impl View for Constraint {
    type V = Requirement;

    open spec fn view(&self) -> Requirement {
        Requirement { parameter: self.parameter@, trait_name: self.trait_name@ }
    }
}

/// A function definition, generic or not.
pub struct FunctionDefinition {
    pub name: String,
    pub type_parameters: Vec<String>,
    pub constraints: Vec<Constraint>,
    pub parameters: Vec<Parameter>,
    pub return_type: Type,
    pub body: Expression,
}

/// The value of a function definition.
pub struct FunctionDecl {
    pub name: Seq<char>,
    pub type_parameters: Seq<Seq<char>>,
    pub constraints: Seq<Requirement>,
    pub parameters: Seq<Param>,
    pub return_type: Ty,
    pub body: Form,
}

impl View for FunctionDefinition {
    type V = FunctionDecl;

    open spec fn view(&self) -> FunctionDecl {
        FunctionDecl {
            name: self.name@,
            type_parameters: views(self.type_parameters@),
            constraints: views(self.constraints@),
            parameters: views(self.parameters@),
            return_type: self.return_type@,
            body: self.body@,
        }
    }
}

/// A method signature declared by a trait.
pub struct MethodSignature {
    pub name: String,
    pub parameters: Vec<Parameter>,
    pub return_type: Type,
}

/// The value of a method signature.
pub struct MethodDecl {
    pub name: Seq<char>,
    pub parameters: Seq<Param>,
    pub return_type: Ty,
}

impl View for MethodSignature {
    type V = MethodDecl;

    open spec fn view(&self) -> MethodDecl {
        MethodDecl { name: self.name@, parameters: views(self.parameters@), return_type: self.return_type@ }
    }
}

/// A trait: a name and the signatures of its methods.
pub struct TraitDefinition {
    pub name: String,
    pub methods: Vec<MethodSignature>,
}

/// The value of a trait.
pub struct TraitDecl {
    pub name: Seq<char>,
    pub methods: Seq<MethodDecl>,
}

impl View for TraitDefinition {
    type V = TraitDecl;

    open spec fn view(&self) -> TraitDecl {
        TraitDecl { name: self.name@, methods: views(self.methods@) }
    }
}

/// An implementation of a trait for a type.
pub struct ImplDefinition {
    pub trait_name: String,
    pub for_type: Type,
    pub methods: Vec<FunctionDefinition>,
}

/// The value of a trait implementation.
pub struct ImplDecl {
    pub trait_name: Seq<char>,
    pub for_type: Ty,
    pub methods: Seq<FunctionDecl>,
}

impl View for ImplDefinition {
    type V = ImplDecl;

    open spec fn view(&self) -> ImplDecl {
        ImplDecl { trait_name: self.trait_name@, for_type: self.for_type@, methods: views(self.methods@) }
    }
}

/// The declarations of a program, each kind in source order.
pub struct Declarations {
    pub traits: Vec<TraitDefinition>,
    pub implementations: Vec<ImplDefinition>,
    pub functions: Vec<FunctionDefinition>,
}

/// The value of a program's declarations.
pub struct Decls {
    pub traits: Seq<TraitDecl>,
    pub implementations: Seq<ImplDecl>,
    pub functions: Seq<FunctionDecl>,
}

impl View for Declarations {
    type V = Decls;

    open spec fn view(&self) -> Decls {
        Decls {
            traits: views(self.traits@),
            implementations: views(self.implementations@),
            functions: views(self.functions@),
        }
    }
}

/// The names of a sequence of parameters.
pub open spec fn param_names(ps: Seq<Param>) -> Seq<Seq<char>> {
    Seq::new(ps.len(), |i: int| ps[i].name)
}

/// The types of a sequence of parameters.
pub open spec fn param_types(ps: Seq<Param>) -> Seq<Ty> {
    Seq::new(ps.len(), |i: int| ps[i].ty)
}

/// Whether every parameter type mentions only the type parameters in `scope`.
pub open spec fn params_scoped(ps: Seq<Param>, scope: Seq<Seq<char>>, allow_self: bool) -> bool {
    forall|i: int| 0 <= i < ps.len() ==> is_scoped(#[trigger] ps[i].ty, scope, allow_self)
}

/// Whether a function's types mention only its own type parameters, and never `Self`.
pub open spec fn decl_scoped(f: FunctionDecl) -> bool {
    params_scoped(f.parameters, f.type_parameters, false) && is_scoped(f.return_type, f.type_parameters, false)
}

/// Whether the methods of an implementation are non-generic and well scoped.
pub open spec fn impl_scoped(i: ImplDecl) -> bool {
    forall|j: int| 0 <= j < i.methods.len() ==> decl_scoped(#[trigger] i.methods[j]) && i.methods[j].type_parameters.len() == 0
}

/// Whether every function and implemented method of a program is well scoped.
pub open spec fn decls_scoped(d: Decls) -> bool {
    &&& forall|i: int| 0 <= i < d.functions.len() ==> decl_scoped(#[trigger] d.functions[i])
    &&& forall|i: int| 0 <= i < d.implementations.len() ==> impl_scoped(#[trigger] d.implementations[i])
}

/// The names of a sequence of method signatures.
pub open spec fn method_names(ms: Seq<MethodDecl>) -> Seq<Seq<char>> {
    Seq::new(ms.len(), |i: int| ms[i].name)
}

/// Copies a list of names.
pub fn duplicate_names(v: &Vec<String>) -> (r: Vec<String>)
    ensures
        views(r@) == views(v@),
{
    let mut r: Vec<String> = Vec::new();
    let mut i: usize = 0;
    while i < v.len()
        invariant
            i <= v@.len(),
            r@.len() == i,
            forall|j: int| 0 <= j < i ==> #[trigger] r@[j]@ == v@[j]@,
        decreases v@.len() - i,
    {
        r.push(v[i].clone());
        i += 1;
    }
    assert(views(r@) =~= views(v@));
    r
}

/// Copies a list of parameters.
pub fn duplicate_parameters(v: &Vec<Parameter>) -> (r: Vec<Parameter>)
    ensures
        views(r@) == views(v@),
{
    let mut r: Vec<Parameter> = Vec::new();
    let mut i: usize = 0;
    while i < v.len()
        invariant
            i <= v@.len(),
            r@.len() == i,
            forall|j: int| 0 <= j < i ==> #[trigger] r@[j]@ == v@[j]@,
        decreases v@.len() - i,
    {
        r.push(Parameter { name: v[i].name.clone(), ty: v[i].ty.duplicate() });
        i += 1;
    }
    assert(views(r@) =~= views(v@));
    r
}

/// Copies a list of requirements.
pub fn duplicate_constraints(v: &Vec<Constraint>) -> (r: Vec<Constraint>)
    ensures
        views(r@) == views(v@),
{
    let mut r: Vec<Constraint> = Vec::new();
    let mut i: usize = 0;
    while i < v.len()
        invariant
            i <= v@.len(),
            r@.len() == i,
            forall|j: int| 0 <= j < i ==> #[trigger] r@[j]@ == v@[j]@,
        decreases v@.len() - i,
    {
        r.push(Constraint { parameter: v[i].parameter.clone(), trait_name: v[i].trait_name.clone() });
        i += 1;
    }
    assert(views(r@) =~= views(v@));
    r
}

impl FunctionDefinition {
    /// A copy of this definition.
    pub fn duplicate(&self) -> (r: FunctionDefinition)
        ensures
            r@ == self@,
    {
        FunctionDefinition {
            name: self.name.clone(),
            type_parameters: duplicate_names(&self.type_parameters),
            constraints: duplicate_constraints(&self.constraints),
            parameters: duplicate_parameters(&self.parameters),
            return_type: self.return_type.duplicate(),
            body: self.body.duplicate(),
        }
    }
}

impl MethodSignature {
    /// A copy of this signature.
    pub fn duplicate(&self) -> (r: MethodSignature)
        ensures
            r@ == self@,
    {
        MethodSignature {
            name: self.name.clone(),
            parameters: duplicate_parameters(&self.parameters),
            return_type: self.return_type.duplicate(),
        }
    }
}

// ---------------------------------------------------------------------------
// Reading forms
// ---------------------------------------------------------------------------

/// The `i`th item of `es`, if there is one.
pub open spec fn item(es: Seq<Form>, i: int) -> Option<Form> {
    if 0 <= i < es.len() {
        Some(es[i])
    } else {
        None
    }
}

/// The items of a list form, or `message`.
pub open spec fn list_of(f: Form, message: Seq<char>) -> Result<Seq<Form>, Seq<char>> {
    match f {
        Form::List(es) => Ok(es),
        _ => Err(message),
    }
}

/// The name of a symbol form, or `message`.
pub open spec fn symbol_of(f: Option<Form>, message: Seq<char>) -> Result<Seq<char>, Seq<char>> {
    match f {
        Some(Form::Symbol(s)) => Ok(s),
        _ => Err(message),
    }
}

/// Success when `f` is the symbol `expected`, else `message`.
pub open spec fn keyword_of(f: Option<Form>, expected: Seq<char>, message: Seq<char>) -> Result<(), Seq<char>> {
    match f {
        Some(Form::Symbol(s)) => if s == expected {
            Ok(())
        } else {
            Err(message)
        },
        _ => Err(message),
    }
}

/// The value of an optional borrowed s-expression.
pub open spec fn form_of(e: Option<&Expression>) -> Option<Form> {
    match e {
        Some(x) => Some(x@),
        None => None,
    }
}

/// The items of `expression`, which must be a list.
pub fn list<'a>(expression: &'a Expression, message: &str) -> (r: Result<&'a Vec<Expression>, Error>)
    ensures
        match list_of(expression@, message@) {
            Ok(es) => r matches Ok(v) && views(v@) == es,
            Err(m) => r matches Err(e) && e@ == m,
        },
{
    match expression {
        Expression::List(expressions) => {
            assert(views(expressions@) =~= expression@->List_0);
            Ok(expressions)
        },
        _ => Err(error(message)),
    }
}

/// The name of `expression`, which must be a symbol.
pub fn symbol<'a>(expression: Option<&'a Expression>, message: &str) -> (r: Result<&'a String, Error>)
    ensures
        match symbol_of(form_of(expression), message@) {
            Ok(s) => r matches Ok(v) && v@ == s,
            Err(m) => r matches Err(e) && e@ == m,
        },
{
    match expression {
        Some(Expression::Symbol(symbol)) => Ok(symbol),
        _ => Err(error(message)),
    }
}

/// The symbol at the head of a list.
pub fn first_symbol<'a>(expressions: &'a Vec<Expression>, message: &str) -> (r: Result<&'a String, Error>)
    ensures
        match symbol_of(item(views(expressions@), 0), message@) {
            Ok(s) => r matches Ok(v) && v@ == s,
            Err(m) => r matches Err(e) && e@ == m,
        },
{
    symbol(get(expressions, 0), message)
}

/// Checks that `expression` is the symbol `expected`.
pub fn expect_symbol(expression: Option<&Expression>, expected: &str, message: &str) -> (r: Result<(), Error>)
    ensures
        match keyword_of(form_of(expression), expected@, message@) {
            Ok(_) => r is Ok,
            Err(m) => r matches Err(e) && e@ == m,
        },
{
    match expression {
        Some(Expression::Symbol(actual)) => if same_text(actual.as_str(), expected) {
            Ok(())
        } else {
            Err(error(message))
        },
        _ => Err(error(message)),
    }
}

/// Whether `expression` is the symbol `text`.
pub fn is_symbol(expression: &Expression, text: &str) -> (r: bool)
    ensures
        r == (expression@ == Form::Symbol(text@)),
{
    match expression {
        Expression::Symbol(name) => same_text(name.as_str(), text),
        _ => false,
    }
}

/// The `i`th item of a list, if there is one.
pub fn get<'a>(expressions: &'a Vec<Expression>, i: usize) -> (r: Option<&'a Expression>)
    ensures
        form_of(r) == item(views(expressions@), i as int),
{
    if i < expressions.len() {
        Some(&expressions[i])
    } else {
        None
    }
}

/// Whether `name` is one of `names`.
pub fn contains_name(names: &Vec<String>, name: &str) -> (r: bool)
    ensures
        r == views(names@).contains(name@),
{
    let mut i: usize = 0;
    while i < names.len()
        invariant
            i <= names@.len(),
            forall|j: int| 0 <= j < i ==> names@[j]@ != name@,
        decreases names@.len() - i,
    {
        if same_text(names[i].as_str(), name) {
            assert(views(names@)[i as int] == name@);
            return true;
        }
        i += 1;
    }
    assert(!views(names@).contains(name@)) by {
        if views(names@).contains(name@) {
            let k = choose|k: int| 0 <= k < views(names@).len() && views(names@)[k] == name@;
            assert(names@[k]@ == name@);
        }
    }
    false
}

// ---------------------------------------------------------------------------
// Types
// ---------------------------------------------------------------------------

/// The type that a form denotes. `scope` holds the type parameters in scope; `Self`
/// is a type only where `allow_self` holds.
pub open spec fn type_of(f: Form, scope: Seq<Seq<char>>, allow_self: bool) -> Result<Ty, Seq<char>>
    decreases f,
{
    match f {
        Form::Symbol(name) => if name == "Int"@ {
            Ok(Ty::Int)
        } else if name == "String"@ {
            Ok(Ty::String)
        } else if name == "Unit"@ {
            Ok(Ty::Unit)
        } else if allow_self && name == "Self"@ {
            Ok(Ty::TraitSelf)
        } else if scope.contains(name) {
            Ok(Ty::Parameter(name))
        } else {
            Err("unknown type"@)
        },
        Form::List(es) => if es.len() == 2 && es[0] == Form::Symbol("Array"@) {
            match type_of(es[1], scope, allow_self) {
                Ok(t) => Ok(Ty::Array(Box::new(t))),
                Err(e) => Err(e),
            }
        } else {
            Err("unknown type"@)
        },
        _ => Err("unknown type"@),
    }
}

/// Reads a type.
pub fn parse_type(expression: &Expression, type_parameters: &Vec<String>, allow_self: bool) -> (r: Result<Type, Error>)
    ensures
        match type_of(expression@, views(type_parameters@), allow_self) {
            Ok(t) => r matches Ok(ty) && ty@ == t,
            Err(m) => r matches Err(e) && e@ == m,
        },
        r matches Ok(t) ==> is_scoped(t@, views(type_parameters@), allow_self),
    decreases expression,
{
    match expression {
        Expression::Symbol(name) => {
            if same_text(name.as_str(), "Int") {
                Ok(Type::Int)
            } else if same_text(name.as_str(), "String") {
                Ok(Type::String)
            } else if same_text(name.as_str(), "Unit") {
                Ok(Type::Unit)
            } else if allow_self && same_text(name.as_str(), "Self") {
                Ok(Type::TraitSelf)
            } else if contains_name(type_parameters, name.as_str()) {
                Ok(Type::Parameter(name.clone()))
            } else {
                Err(error("unknown type"))
            }
        },
        Expression::List(elements) => {
            let is_array = elements.len() == 2 && is_symbol(&elements[0], "Array");
            if is_array {
                proof {
                    assert(expression@->List_0[0] == elements@[0]@);
                    assert(expression@->List_0[1] == elements@[1]@);
                    assert(decreases_to!(*expression => (*expression)->List_0));
                    assert(decreases_to!(*elements => elements@));
                    assert(decreases_to!(elements@ => elements@[1]));
                }
                match parse_type(&elements[1], type_parameters, allow_self) {
                    Ok(t) => Ok(Type::Array(Box::new(t))),
                    Err(e) => Err(e),
                }
            } else {
                proof {
                    if elements@.len() == 2 {
                        assert(expression@->List_0[0] == elements@[0]@);
                    }
                }
                Err(error("unknown type"))
            }
        },
        _ => Err(error("unknown type")),
    }
}

// ---------------------------------------------------------------------------
// Parameters
// ---------------------------------------------------------------------------

/// The diagnostic for a parameter name used twice.
pub open spec fn duplicate_parameter(name: Seq<char>) -> Seq<char> {
    "function parameter `"@ + name + "` is declared more than once"@
}

/// The parameter that a form `(name type)` declares; `seen` holds the names of the
/// parameters before it.
pub open spec fn param_of(f: Form, seen: Seq<Seq<char>>, scope: Seq<Seq<char>>, allow_self: bool) -> Result<Param, Seq<char>> {
    match list_of(f, "function parameter must be `(name type)`"@) {
        Err(e) => Err(e),
        Ok(p) => if p.len() != 2 {
            Err("function parameter must be `(name type)`"@)
        } else {
            match symbol_of(item(p, 0), "function parameter must have a name"@) {
                Err(e) => Err(e),
                Ok(name) => if seen.contains(name) {
                    Err(duplicate_parameter(name))
                } else {
                    match type_of(p[1], scope, allow_self) {
                        Err(e) => Err(e),
                        Ok(t) => Ok(Param { name, ty: t }),
                    }
                },
            }
        },
    }
}

/// The parameters declared by `items[k..]`, after those in `done`.
pub open spec fn params_from(items: Seq<Form>, k: int, done: Seq<Param>, scope: Seq<Seq<char>>, allow_self: bool) -> Result<Seq<Param>, Seq<char>>
    decreases items.len() - k,
{
    if k < 0 || k >= items.len() {
        Ok(done)
    } else {
        match param_of(items[k], param_names(done), scope, allow_self) {
            Err(e) => Err(e),
            Ok(p) => params_from(items, k + 1, done.push(p), scope, allow_self),
        }
    }
}

/// The parameter list of a function or method.
pub open spec fn parameters_of(f: Option<Form>, scope: Seq<Seq<char>>, allow_self: bool) -> Result<Seq<Param>, Seq<char>> {
    match f {
        None => Err("function is missing its parameter list"@),
        Some(f) => match list_of(f, "function parameters must be a list"@) {
            Err(e) => Err(e),
            Ok(items) => params_from(items, 0, seq![], scope, allow_self),
        },
    }
}

/// Whether `name` is the name of one of `parameters`.
fn has_parameter_named(parameters: &Vec<Parameter>, name: &str) -> (r: bool)
    ensures
        r == param_names(views(parameters@)).contains(name@),
{
    let ghost ns = param_names(views(parameters@));
    let mut i: usize = 0;
    while i < parameters.len()
        invariant
            ns == param_names(views(parameters@)),
            i <= parameters@.len(),
            forall|j: int| 0 <= j < i ==> ns[j] != name@,
        decreases parameters@.len() - i,
    {
        if same_text(parameters[i].name.as_str(), name) {
            assert(ns[i as int] == name@);
            return true;
        }
        i += 1;
    }
    assert(!ns.contains(name@)) by {
        if ns.contains(name@) {
            let k = choose|k: int| 0 <= k < ns.len() && ns[k] == name@;
        }
    }
    false
}

/// Reads a parameter list `((name type) ...)`.
pub fn parse_parameters(expression: Option<&Expression>, type_parameters: &Vec<String>, allow_self: bool) -> (r: Result<Vec<Parameter>, Error>)
    ensures
        match parameters_of(form_of(expression), views(type_parameters@), allow_self) {
            Ok(ps) => r matches Ok(v) && views(v@) == ps,
            Err(m) => r matches Err(e) && e@ == m,
        },
        r matches Ok(v) ==> params_scoped(views(v@), views(type_parameters@), allow_self),
{
    let ghost whole = parameters_of(form_of(expression), views(type_parameters@), allow_self);
    let given = match expression {
        Some(e) => e,
        None => {
            return Err(error("function is missing its parameter list"));
        },
    };
    let items = match list(given, "function parameters must be a list") {
        Ok(items) => items,
        Err(e) => {
            return Err(e);
        },
    };
    let ghost fs = views(items@);
    let ghost scope = views(type_parameters@);
    let mut parameters: Vec<Parameter> = Vec::new();
    let mut k: usize = 0;
    assert(views(parameters@) =~= seq![]);
    while k < items.len()
        invariant
            fs == views(items@),
            scope == views(type_parameters@),
            whole == params_from(fs, 0, seq![], scope, allow_self),
            whole == parameters_of(form_of(expression), views(type_parameters@), allow_self),
            k <= items@.len(),
            params_from(fs, 0, seq![], scope, allow_self) == params_from(fs, k as int, views(parameters@), scope, allow_self),
            params_scoped(views(parameters@), scope, allow_self),
        decreases items@.len() - k,
    {
        let ghost done = views(parameters@);
        assert(fs[k as int] == items@[k as int]@);
        let parameter = match list(&items[k], "function parameter must be `(name type)`") {
            Ok(p) => p,
            Err(e) => {
                return Err(e);
            },
        };
        if parameter.len() != 2 {
            assert(views(parameter@).len() != 2);
            return Err(error("function parameter must be `(name type)`"));
        }
        let name = match symbol(get(parameter, 0), "function parameter must have a name") {
            Ok(name) => name,
            Err(e) => {
                return Err(e);
            },
        };
        if has_parameter_named(&parameters, name.as_str()) {
            return Err(Error::new(join3("function parameter `", name.as_str(), "` is declared more than once")));
        }
        assert(views(parameter@)[1] == parameter@[1]@);
        let ty = match parse_type(&parameter[1], type_parameters, allow_self) {
            Ok(t) => t,
            Err(e) => {
                return Err(e);
            },
        };
        let p = Parameter { name: name.clone(), ty };
        parameters.push(p);
        assert(views(parameters@) =~= done.push(p@));
        k += 1;
    }
    Ok(parameters)
}

// ---------------------------------------------------------------------------
// Generic parameters
// ---------------------------------------------------------------------------

/// The index of the first `where` symbol at or after `k`.
pub open spec fn where_from(es: Seq<Form>, k: int) -> Option<int>
    decreases es.len() - k,
{
    if k < 0 || k >= es.len() {
        None
    } else if es[k] == Form::Symbol("where"@) {
        Some(k)
    } else {
        where_from(es, k + 1)
    }
}

/// The type parameter names `es[k..end]`, after those in `done`.
pub open spec fn type_params_from(es: Seq<Form>, k: int, end: int, done: Seq<Seq<char>>) -> Result<Seq<Seq<char>>, Seq<char>>
    decreases end - k,
{
    if k < 0 || k >= end || k >= es.len() {
        Ok(done)
    } else {
        match symbol_of(Some(es[k]), "generic parameter must be a name"@) {
            Err(e) => Err(e),
            Ok(name) => if done.contains(name) {
                Err("generic parameter `"@ + name + "` is declared more than once"@)
            } else {
                type_params_from(es, k + 1, end, done.push(name))
            },
        }
    }
}

/// The requirement that a form `(implements T Trait)` states, over the type parameters `params`.
pub open spec fn requirement_of(f: Form, params: Seq<Seq<char>>) -> Result<Requirement, Seq<char>> {
    match list_of(f, "trait requirement must be a list"@) {
        Err(e) => Err(e),
        Ok(c) => if c.len() != 3 {
            Err("trait requirement must be `(implements TypeParameter Trait)`"@)
        } else {
            match keyword_of(item(c, 0), "implements"@, "trait requirement must start with `implements`"@) {
                Err(e) => Err(e),
                Ok(_) => match symbol_of(item(c, 1), "trait requirement is missing a type parameter"@) {
                    Err(e) => Err(e),
                    Ok(parameter) => if !params.contains(parameter) {
                        Err("trait requirement references unknown type parameter `"@ + parameter + "`"@)
                    } else {
                        match symbol_of(item(c, 2), "trait requirement is missing a trait"@) {
                            Err(e) => Err(e),
                            Ok(trait_name) => Ok(Requirement { parameter, trait_name }),
                        }
                    },
                },
            }
        },
    }
}

/// The requirements `es[k..]`, after those in `done`.
pub open spec fn requirements_from(es: Seq<Form>, k: int, params: Seq<Seq<char>>, done: Seq<Requirement>) -> Result<Seq<Requirement>, Seq<char>>
    decreases es.len() - k,
{
    if k < 0 || k >= es.len() {
        Ok(done)
    } else {
        match requirement_of(es[k], params) {
            Err(e) => Err(e),
            Ok(r) => requirements_from(es, k + 1, params, done.push(r)),
        }
    }
}

/// The type parameters and requirements of `[T ... where (implements T Trait) ...]`.
pub open spec fn generics_of(f: Form) -> Result<(Seq<Seq<char>>, Seq<Requirement>), Seq<char>> {
    match list_of(f, "generic parameters must be enclosed in `[]`"@) {
        Err(e) => Err(e),
        Ok(es) => match where_from(es, 0) {
            None => Err("generic parameters require a `where` clause"@),
            Some(w) => if w == 0 || w + 1 == es.len() {
                Err("generic parameters require names and at least one trait requirement"@)
            } else {
                match type_params_from(es, 0, w, seq![]) {
                    Err(e) => Err(e),
                    Ok(params) => match requirements_from(es, w + 1, params, seq![]) {
                        Err(e) => Err(e),
                        Ok(rs) => Ok((params, rs)),
                    },
                }
            },
        },
    }
}

/// What the search for `where` from index `k` finds.
proof fn lemma_where_from(es: Seq<Form>, k: int)
    requires
        0 <= k <= es.len(),
    ensures
        where_from(es, k) matches Some(w) ==> k <= w < es.len() && es[w] == Form::Symbol("where"@),
    decreases es.len() - k,
{
    if k < es.len() && es[k] != Form::Symbol("where"@) {
        lemma_where_from(es, k + 1);
    }
}

/// Reads `[T ... where (implements T Trait) ...]`.
pub fn parse_generic_parameters(expression: &Expression) -> (r: Result<(Vec<String>, Vec<Constraint>), Error>)
    ensures
        match generics_of(expression@) {
            Ok((ps, cs)) => r matches Ok((v, w)) && views(v@) == ps && views(w@) == cs,
            Err(m) => r matches Err(e) && e@ == m,
        },
{
    let elements = match list(expression, "generic parameters must be enclosed in `[]`") {
        Ok(e) => e,
        Err(e) => {
            return Err(e);
        },
    };
    let ghost es = views(elements@);
    let mut where_index: usize = 0;
    while where_index < elements.len() && !is_symbol(&elements[where_index], "where")
        invariant
            es == views(elements@),
            where_index <= elements@.len(),
            where_from(es, 0) == where_from(es, where_index as int),
        decreases elements@.len() - where_index,
    {
        where_index += 1;
    }
    if where_index == elements.len() {
        return Err(error("generic parameters require a `where` clause"));
    }
    if where_index == 0 || where_index + 1 == elements.len() {
        return Err(error("generic parameters require names and at least one trait requirement"));
    }
    proof {
        lemma_where_from(es, where_index as int);
    }
    let mut parameters: Vec<String> = Vec::new();
    let mut k: usize = 0;
    assert(views(parameters@) =~= seq![]);
    while k < where_index
        invariant
            expression@ == Form::List(es),
            where_from(es, 0) == Some(where_index as int),
            where_index != 0,
            where_index + 1 != elements@.len(),
            es == views(elements@),
            where_index < elements@.len(),
            k <= where_index,
            type_params_from(es, 0, where_index as int, seq![]) == type_params_from(es, k as int, where_index as int, views(parameters@)),
        decreases where_index - k,
    {
        let ghost done = views(parameters@);
        assert(es[k as int] == elements@[k as int]@);
        let parameter = match symbol(Some(&elements[k]), "generic parameter must be a name") {
            Ok(p) => p,
            Err(e) => {
                return Err(e);
            },
        };
        if contains_name(&parameters, parameter.as_str()) {
            return Err(Error::new(join3("generic parameter `", parameter.as_str(), "` is declared more than once")));
        }
        parameters.push(parameter.clone());
        assert(views(parameters@) =~= done.push(parameter@));
        k += 1;
    }
    let ghost params = views(parameters@);
    let mut constraints: Vec<Constraint> = Vec::new();
    let mut k: usize = where_index + 1;
    assert(views(constraints@) =~= seq![]);
    while k < elements.len()
        invariant
            expression@ == Form::List(es),
            where_from(es, 0) == Some(where_index as int),
            where_index != 0,
            where_index + 1 != elements@.len(),
            type_params_from(es, 0, where_index as int, seq![]) == Ok::<Seq<Seq<char>>, Seq<char>>(params),
            es == views(elements@),
            params == views(parameters@),
            where_index < k <= elements@.len(),
            requirements_from(es, where_index + 1, params, seq![]) == requirements_from(es, k as int, params, views(constraints@)),
        decreases elements@.len() - k,
    {
        let ghost done = views(constraints@);
        assert(es[k as int] == elements@[k as int]@);
        let constraint = match list(&elements[k], "trait requirement must be a list") {
            Ok(c) => c,
            Err(e) => {
                return Err(e);
            },
        };
        if constraint.len() != 3 {
            return Err(error("trait requirement must be `(implements TypeParameter Trait)`"));
        }
        match expect_symbol(get(constraint, 0), "implements", "trait requirement must start with `implements`") {
            Ok(_) => {},
            Err(e) => {
                return Err(e);
            },
        }
        let parameter = match symbol(get(constraint, 1), "trait requirement is missing a type parameter") {
            Ok(p) => p,
            Err(e) => {
                return Err(e);
            },
        };
        if !contains_name(&parameters, parameter.as_str()) {
            return Err(Error::new(join3("trait requirement references unknown type parameter `", parameter.as_str(), "`")));
        }
        let trait_name = match symbol(get(constraint, 2), "trait requirement is missing a trait") {
            Ok(t) => t,
            Err(e) => {
                return Err(e);
            },
        };
        let c = Constraint { parameter: parameter.clone(), trait_name: trait_name.clone() };
        constraints.push(c);
        assert(views(constraints@) =~= done.push(c@));
        k += 1;
    }
    Ok((parameters, constraints))
}

// ---------------------------------------------------------------------------
// Functions, traits, implementations
// ---------------------------------------------------------------------------

/// The function that a form `(keyword name [generics]? params -> type body)` defines.
/// Generic parameters are read only where `allow_generics` holds.
pub open spec fn function_of(form: Seq<Form>, keyword: Seq<char>, allow_generics: bool) -> Result<FunctionDecl, Seq<char>> {
    match keyword_of(item(form, 0), keyword, "function must start with `"@ + keyword + "`"@) {
        Err(e) => Err(e),
        Ok(_) => match symbol_of(item(form, 1), "function is missing its name"@) {
            Err(e) => Err(e),
            Ok(name) => {
                let has_generics = allow_generics && form.len() == 7;
                let expected_len: int = if has_generics { 7 } else { 6 };
                if form.len() != expected_len {
                    Err("function `"@ + name + "` must contain exactly one body expression"@)
                } else {
                    let generics: Result<(Seq<Seq<char>>, Seq<Requirement>), Seq<char>> = if has_generics {
                        generics_of(form[2])
                    } else {
                        Ok((seq![], seq![]))
                    };
                    let pi: int = if has_generics { 3 } else { 2 };
                    match generics {
                        Err(e) => Err(e),
                        Ok((tps, cs)) => match parameters_of(item(form, pi), tps, false) {
                            Err(e) => Err(e),
                            Ok(ps) => match keyword_of(item(form, pi + 1), "->"@, "expected `->` before the return type"@) {
                                Err(e) => Err(e),
                                Ok(_) => match type_of(form[pi + 2], tps, false) {
                                    Err(e) => Err(e),
                                    Ok(rt) => Ok(FunctionDecl {
                                        name,
                                        type_parameters: tps,
                                        constraints: cs,
                                        parameters: ps,
                                        return_type: rt,
                                        body: form[pi + 3],
                                    }),
                                },
                            },
                        },
                    }
                }
            },
        },
    }
}

/// Reads a function definition from the items of its form.
pub fn parse_function(form: &Vec<Expression>, keyword: &str, allow_generics: bool) -> (r: Result<FunctionDefinition, Error>)
    ensures
        match function_of(views(form@), keyword@, allow_generics) {
            Ok(f) => r matches Ok(d) && d@ == f,
            Err(m) => r matches Err(e) && e@ == m,
        },
        r matches Ok(d) ==> decl_scoped(d@) && (!allow_generics ==> d@.type_parameters.len() == 0),
{
    let ghost fs = views(form@);
    match expect_symbol(get(form, 0), keyword, join3("function must start with `", keyword, "`").as_str()) {
        Ok(_) => {},
        Err(e) => {
            return Err(e);
        },
    }
    let name = match symbol(get(form, 1), "function is missing its name") {
        Ok(n) => n,
        Err(e) => {
            return Err(e);
        },
    };
    let has_generics = allow_generics && form.len() == 7;
    let expected_len: usize = if has_generics { 7 } else { 6 };
    if form.len() != expected_len {
        return Err(Error::new(join3("function `", name.as_str(), "` must contain exactly one body expression")));
    }
    let (type_parameters, constraints, parameter_index) = if has_generics {
        assert(fs[2] == form@[2]@);
        match parse_generic_parameters(&form[2]) {
            Ok((parameters, constraints)) => (parameters, constraints, 3usize),
            Err(e) => {
                return Err(e);
            },
        }
    } else {
        let parameters: Vec<String> = Vec::new();
        let constraints: Vec<Constraint> = Vec::new();
        assert(views(parameters@) =~= seq![]);
        assert(views(constraints@) =~= seq![]);
        (parameters, constraints, 2usize)
    };
    let parameters = match parse_parameters(get(form, parameter_index), &type_parameters, false) {
        Ok(p) => p,
        Err(e) => {
            return Err(e);
        },
    };
    match expect_symbol(get(form, parameter_index + 1), "->", "expected `->` before the return type") {
        Ok(_) => {},
        Err(e) => {
            return Err(e);
        },
    }
    assert(fs[parameter_index + 2] == form@[parameter_index + 2]@);
    let return_type = match parse_type(&form[parameter_index + 2], &type_parameters, false) {
        Ok(t) => t,
        Err(e) => {
            return Err(e);
        },
    };
    assert(fs[parameter_index + 3] == form@[parameter_index + 3]@);
    let body = form[parameter_index + 3].duplicate();
    Ok(FunctionDefinition {
        name: name.clone(),
        type_parameters,
        constraints,
        parameters,
        return_type,
        body,
    })
}

/// The method signature that a trait item `(fn name params -> type)` declares;
/// `seen` holds the names of the trait's earlier methods.
pub open spec fn method_of(f: Form, seen: Seq<Seq<char>>) -> Result<MethodDecl, Seq<char>> {
    match list_of(f, "trait method must be a list"@) {
        Err(e) => Err(e),
        Ok(m) => if m.len() != 5 {
            Err("trait method must contain only a signature"@)
        } else {
            match keyword_of(item(m, 0), "fn"@, "trait method must start with `fn`"@) {
                Err(e) => Err(e),
                Ok(_) => match symbol_of(item(m, 1), "trait method is missing its name"@) {
                    Err(e) => Err(e),
                    Ok(name) => if seen.contains(name) {
                        Err("method `"@ + name + "` is declared more than once in trait"@)
                    } else {
                        match parameters_of(item(m, 2), seq![], true) {
                            Err(e) => Err(e),
                            Ok(ps) => match keyword_of(item(m, 3), "->"@, "expected `->` before the return type"@) {
                                Err(e) => Err(e),
                                Ok(_) => match type_of(m[4], seq![], true) {
                                    Err(e) => Err(e),
                                    Ok(rt) => Ok(MethodDecl { name, parameters: ps, return_type: rt }),
                                },
                            },
                        }
                    },
                },
            }
        },
    }
}

/// The method signatures `form[k..]`, after those in `done`.
pub open spec fn methods_from(form: Seq<Form>, k: int, done: Seq<MethodDecl>) -> Result<Seq<MethodDecl>, Seq<char>>
    decreases form.len() - k,
{
    if k < 0 || k >= form.len() {
        Ok(done)
    } else {
        match method_of(form[k], method_names(done)) {
            Err(e) => Err(e),
            Ok(m) => methods_from(form, k + 1, done.push(m)),
        }
    }
}

/// The trait that a form `(trait Name (fn ...) ...)` declares.
pub open spec fn trait_of(form: Seq<Form>) -> Result<TraitDecl, Seq<char>> {
    match symbol_of(item(form, 1), "trait is missing its name"@) {
        Err(e) => Err(e),
        Ok(name) => if form.len() < 3 {
            Err("trait `"@ + name + "` must declare at least one method"@)
        } else {
            match methods_from(form, 2, seq![]) {
                Err(e) => Err(e),
                Ok(ms) => Ok(TraitDecl { name, methods: ms }),
            }
        },
    }
}

/// Whether one of `methods` is named `name`.
pub fn has_method_named(methods: &Vec<MethodSignature>, name: &str) -> (r: bool)
    ensures
        r == method_names(views(methods@)).contains(name@),
{
    let ghost ns = method_names(views(methods@));
    let mut i: usize = 0;
    while i < methods.len()
        invariant
            ns == method_names(views(methods@)),
            i <= methods@.len(),
            forall|j: int| 0 <= j < i ==> ns[j] != name@,
        decreases methods@.len() - i,
    {
        if same_text(methods[i].name.as_str(), name) {
            assert(ns[i as int] == name@);
            return true;
        }
        i += 1;
    }
    assert(!ns.contains(name@)) by {
        if ns.contains(name@) {
            let k = choose|k: int| 0 <= k < ns.len() && ns[k] == name@;
        }
    }
    false
}

/// Reads a trait declaration from the items of its form.
pub fn parse_trait(form: &Vec<Expression>) -> (r: Result<TraitDefinition, Error>)
    ensures
        match trait_of(views(form@)) {
            Ok(t) => r matches Ok(d) && d@ == t,
            Err(m) => r matches Err(e) && e@ == m,
        },
{
    let ghost fs = views(form@);
    let name = match symbol(get(form, 1), "trait is missing its name") {
        Ok(n) => n,
        Err(e) => {
            return Err(e);
        },
    };
    if form.len() < 3 {
        return Err(Error::new(join3("trait `", name.as_str(), "` must declare at least one method")));
    }
    let mut methods: Vec<MethodSignature> = Vec::new();
    let mut k: usize = 2;
    assert(views(methods@) =~= seq![]);
    while k < form.len()
        invariant
            fs == views(form@),
            symbol_of(item(fs, 1), "trait is missing its name"@) == Ok::<Seq<char>, Seq<char>>(name@),
            fs.len() >= 3,
            2 <= k <= form@.len(),
            methods_from(fs, 2, seq![]) == methods_from(fs, k as int, views(methods@)),
        decreases form@.len() - k,
    {
        let ghost done = views(methods@);
        assert(fs[k as int] == form@[k as int]@);
        let method = match list(&form[k], "trait method must be a list") {
            Ok(m) => m,
            Err(e) => {
                return Err(e);
            },
        };
        if method.len() != 5 {
            return Err(error("trait method must contain only a signature"));
        }
        match expect_symbol(get(method, 0), "fn", "trait method must start with `fn`") {
            Ok(_) => {},
            Err(e) => {
                return Err(e);
            },
        }
        let method_name = match symbol(get(method, 1), "trait method is missing its name") {
            Ok(n) => n,
            Err(e) => {
                return Err(e);
            },
        };
        if has_method_named(&methods, method_name.as_str()) {
            return Err(Error::new(join3("method `", method_name.as_str(), "` is declared more than once in trait")));
        }
        let no_type_parameters: Vec<String> = Vec::new();
        assert(views(no_type_parameters@) =~= seq![]);
        let parameters = match parse_parameters(get(method, 2), &no_type_parameters, true) {
            Ok(p) => p,
            Err(e) => {
                return Err(e);
            },
        };
        match expect_symbol(get(method, 3), "->", "expected `->` before the return type") {
            Ok(_) => {},
            Err(e) => {
                return Err(e);
            },
        }
        assert(views(method@)[4] == method@[4]@);
        let return_type = match parse_type(&method[4], &no_type_parameters, true) {
            Ok(t) => t,
            Err(e) => {
                return Err(e);
            },
        };
        let m = MethodSignature { name: method_name.clone(), parameters, return_type };
        methods.push(m);
        assert(views(methods@) =~= done.push(m@));
        k += 1;
    }
    Ok(TraitDefinition { name: name.clone(), methods })
}

/// The implemented methods `form[k..]`, after those in `done`.
pub open spec fn impl_methods_from(form: Seq<Form>, k: int, done: Seq<FunctionDecl>) -> Result<Seq<FunctionDecl>, Seq<char>>
    decreases form.len() - k,
{
    if k < 0 || k >= form.len() {
        Ok(done)
    } else {
        match list_of(form[k], "implemented method must be a list"@) {
            Err(e) => Err(e),
            Ok(m) => match function_of(m, "fn"@, false) {
                Err(e) => Err(e),
                Ok(f) => impl_methods_from(form, k + 1, done.push(f)),
            },
        }
    }
}

/// The implementation that a form `(impl Trait for Type (fn ...) ...)` declares.
pub open spec fn impl_of(form: Seq<Form>) -> Result<ImplDecl, Seq<char>> {
    match symbol_of(item(form, 1), "implementation is missing its trait"@) {
        Err(e) => Err(e),
        Ok(trait_name) => match keyword_of(item(form, 2), "for"@, "expected `for` in trait implementation"@) {
            Err(e) => Err(e),
            Ok(_) => {
                let for_type = match item(form, 3) {
                    None => Err("implementation is missing its type"@),
                    Some(f) => type_of(f, seq![], false),
                };
                match for_type {
                    Err(e) => Err(e),
                    Ok(t) => if form.len() < 5 {
                        Err("trait implementation must define its methods"@)
                    } else {
                        match impl_methods_from(form, 4, seq![]) {
                            Err(e) => Err(e),
                            Ok(ms) => Ok(ImplDecl { trait_name, for_type: t, methods: ms }),
                        }
                    },
                }
            },
        },
    }
}

/// Reads a trait implementation from the items of its form.
pub fn parse_impl(form: &Vec<Expression>) -> (r: Result<ImplDefinition, Error>)
    ensures
        match impl_of(views(form@)) {
            Ok(t) => r matches Ok(d) && d@ == t,
            Err(m) => r matches Err(e) && e@ == m,
        },
        r matches Ok(d) ==> impl_scoped(d@),
{
    let ghost fs = views(form@);
    let trait_name = match symbol(get(form, 1), "implementation is missing its trait") {
        Ok(n) => n,
        Err(e) => {
            return Err(e);
        },
    };
    match expect_symbol(get(form, 2), "for", "expected `for` in trait implementation") {
        Ok(_) => {},
        Err(e) => {
            return Err(e);
        },
    }
    let for_type = match get(form, 3) {
        None => {
            return Err(error("implementation is missing its type"));
        },
        Some(f) => {
            let no_type_parameters: Vec<String> = Vec::new();
            assert(views(no_type_parameters@) =~= seq![]);
            match parse_type(f, &no_type_parameters, false) {
                Ok(t) => t,
                Err(e) => {
                    return Err(e);
                },
            }
        },
    };
    if form.len() < 5 {
        return Err(error("trait implementation must define its methods"));
    }
    let mut methods: Vec<FunctionDefinition> = Vec::new();
    let mut k: usize = 4;
    assert(views(methods@) =~= seq![]);
    while k < form.len()
        invariant
            fs == views(form@),
            symbol_of(item(fs, 1), "implementation is missing its trait"@) == Ok::<Seq<char>, Seq<char>>(trait_name@),
            keyword_of(item(fs, 2), "for"@, "expected `for` in trait implementation"@) is Ok,
            item(fs, 3) matches Some(f) && type_of(f, seq![], false) == Ok::<Ty, Seq<char>>(for_type@),
            fs.len() >= 5,
            4 <= k <= form@.len(),
            impl_methods_from(fs, 4, seq![]) == impl_methods_from(fs, k as int, views(methods@)),
            forall|j: int| 0 <= j < methods@.len() ==> decl_scoped(#[trigger] views(methods@)[j]) && views(methods@)[j].type_parameters.len() == 0,
        decreases form@.len() - k,
    {
        let ghost done = views(methods@);
        assert(fs[k as int] == form@[k as int]@);
        let method = match list(&form[k], "implemented method must be a list") {
            Ok(m) => m,
            Err(e) => {
                return Err(e);
            },
        };
        let definition = match parse_function(method, "fn", false) {
            Ok(d) => d,
            Err(e) => {
                return Err(e);
            },
        };
        let ghost d = definition@;
        methods.push(definition);
        assert(views(methods@) =~= done.push(d));
        k += 1;
    }
    Ok(ImplDefinition { trait_name: trait_name.clone(), for_type, methods })
}

/// The declarations of the top-level forms `es[k..]`, after those in `done`.
pub open spec fn declarations_from(es: Seq<Form>, k: int, done: Decls) -> Result<Decls, Seq<char>>
    decreases es.len() - k,
{
    if k < 0 || k >= es.len() {
        Ok(done)
    } else {
        match list_of(es[k], "top-level form must be a list"@) {
            Err(e) => Err(e),
            Ok(form) => match symbol_of(item(form, 0), "top-level form must begin with a declaration"@) {
                Err(e) => Err(e),
                Ok(head) => if head == "trait"@ {
                    match trait_of(form) {
                        Err(e) => Err(e),
                        Ok(t) => declarations_from(es, k + 1, Decls { traits: done.traits.push(t), ..done }),
                    }
                } else if head == "impl"@ {
                    match impl_of(form) {
                        Err(e) => Err(e),
                        Ok(i) => declarations_from(es, k + 1, Decls { implementations: done.implementations.push(i), ..done }),
                    }
                } else if head == "defn"@ {
                    match function_of(form, "defn"@, true) {
                        Err(e) => Err(e),
                        Ok(f) => declarations_from(es, k + 1, Decls { functions: done.functions.push(f), ..done }),
                    }
                } else {
                    Err("unsupported top-level form `"@ + head + "`"@)
                },
            },
        }
    }
}

/// The declarations of a whole program.
pub open spec fn program_declarations(es: Seq<Form>) -> Result<Decls, Seq<char>> {
    declarations_from(es, 0, Decls { traits: seq![], implementations: seq![], functions: seq![] })
}

/// Sorts the top-level forms of a program into traits, implementations and functions.
pub fn parse_declarations(expressions: &Vec<Expression>) -> (r: Result<Declarations, Error>)
    ensures
        match program_declarations(views(expressions@)) {
            Ok(d) => r matches Ok(v) && v@ == d,
            Err(m) => r matches Err(e) && e@ == m,
        },
        r matches Ok(v) ==> decls_scoped(v@),
{
    let ghost es = views(expressions@);
    let mut declarations = Declarations { traits: Vec::new(), implementations: Vec::new(), functions: Vec::new() };
    assert(declarations@ == Decls { traits: seq![], implementations: seq![], functions: seq![] }) by {
        assert(views(declarations.traits@) =~= seq![]);
        assert(views(declarations.implementations@) =~= seq![]);
        assert(views(declarations.functions@) =~= seq![]);
    }
    let mut k: usize = 0;
    while k < expressions.len()
        invariant
            es == views(expressions@),
            k <= expressions@.len(),
            program_declarations(es) == declarations_from(es, k as int, declarations@),
            decls_scoped(declarations@),
        decreases expressions@.len() - k,
    {
        let ghost done = declarations@;
        assert(es[k as int] == expressions@[k as int]@);
        let form = match list(&expressions[k], "top-level form must be a list") {
            Ok(f) => f,
            Err(e) => {
                return Err(e);
            },
        };
        let head = match first_symbol(form, "top-level form must begin with a declaration") {
            Ok(h) => h,
            Err(e) => {
                return Err(e);
            },
        };
        if same_text(head.as_str(), "trait") {
            match parse_trait(form) {
                Ok(t) => {
                    let ghost v = t@;
                    declarations.traits.push(t);
                    assert(views(declarations.traits@) =~= done.traits.push(v));
                },
                Err(e) => {
                    return Err(e);
                },
            }
        } else if same_text(head.as_str(), "impl") {
            match parse_impl(form) {
                Ok(i) => {
                    let ghost v = i@;
                    declarations.implementations.push(i);
                    assert(views(declarations.implementations@) =~= done.implementations.push(v));
                },
                Err(e) => {
                    return Err(e);
                },
            }
        } else if same_text(head.as_str(), "defn") {
            match parse_function(form, "defn", true) {
                Ok(f) => {
                    let ghost v = f@;
                    declarations.functions.push(f);
                    assert(views(declarations.functions@) =~= done.functions.push(v));
                },
                Err(e) => {
                    return Err(e);
                },
            }
        } else {
            return Err(Error::new(join3("unsupported top-level form `", head.as_str(), "`")));
        }
        k += 1;
    }
    Ok(declarations)
}

} // verus!
