//! The typed program that the checker produces and the code generator consumes.

use vstd::prelude::*;

use crate::declarations::views;
use crate::types::{is_concrete, is_prefix, tys, Ty, Type};

verus! {

/// An expression together with its type.
#[derive(Debug)]
pub struct TypedExpression {
    pub ty: Type,
    pub kind: ExpressionKind,
}

/// What a typed expression computes.
#[derive(Debug)]
pub enum ExpressionKind {
    Integer(i64),
    /// A string literal; strings are only printed, so it carries no value.
    String,
    /// The function parameter at this index.
    Parameter(usize),
    /// Evaluation in order; the value is the last expression's.
    Do(Vec<TypedExpression>),
    /// Writing the program string at this index to standard output.
    Print(usize),
    /// Integer addition that traps on overflow.
    Add(Box<TypedExpression>, Box<TypedExpression>),
    /// A call of the program function at index `function`.
    Call { function: usize, arguments: Vec<TypedExpression> },
}

/// The value of a typed expression.
pub struct Typed {
    pub ty: Ty,
    pub kind: Kind,
}

/// The value of an expression kind.
pub enum Kind {
    Integer(int),
    String,
    Parameter(int),
    Do(Seq<Typed>),
    Print(int),
    Add(Box<Typed>, Box<Typed>),
    Call(int, Seq<Typed>),
}

impl View for TypedExpression {
    type V = Typed;

    open spec fn view(&self) -> Typed
        decreases self,
    {
        Typed {
            ty: self.ty@,
            kind: match &self.kind {
                ExpressionKind::Integer(n) => Kind::Integer(*n as int),
                ExpressionKind::String => Kind::String,
                ExpressionKind::Parameter(i) => Kind::Parameter(*i as int),
                ExpressionKind::Do(v) => Kind::Do(
                    Seq::new(
                        v@.len(),
                        |i: int|
                            if 0 <= i < v@.len() {
                                v@[i].view()
                            } else {
                                Typed { ty: Ty::Unit, kind: Kind::String }
                            },
                    ),
                ),
                ExpressionKind::Print(i) => Kind::Print(*i as int),
                ExpressionKind::Add(l, r) => Kind::Add(Box::new((**l).view()), Box::new((**r).view())),
                ExpressionKind::Call { function, arguments } => Kind::Call(
                    *function as int,
                    Seq::new(
                        arguments@.len(),
                        |i: int|
                            if 0 <= i < arguments@.len() {
                                arguments@[i].view()
                            } else {
                                Typed { ty: Ty::Unit, kind: Kind::String }
                            },
                    ),
                ),
            },
        }
    }
}

/// The values of a sequence of typed expressions.
pub open spec fn typeds(v: Seq<TypedExpression>) -> Seq<Typed> {
    Seq::new(v.len(), |i: int| v[i]@)
}

/// The parameter and return types of a program function.
pub struct Signature {
    pub parameters: Seq<Ty>,
    pub return_type: Ty,
}

/// Whether a typed expression is well typed in a function with parameter types
/// `params`, in a program whose functions have the signatures `sigs` and which holds
/// `strings` strings: every node's type follows from its children's, every parameter,
/// string and function it names exists, and every call passes arguments of the
/// callee's parameter types.
pub open spec fn well_typed(e: Typed, params: Seq<Ty>, sigs: Seq<Signature>, strings: nat) -> bool
    decreases e,
{
    match e.kind {
        Kind::Integer(_) => e.ty == Ty::Int,
        Kind::String => e.ty == Ty::String,
        Kind::Parameter(i) => 0 <= i < params.len() && e.ty == params[i],
        Kind::Do(es) => {
            &&& es.len() > 0
            &&& e.ty == es[es.len() - 1].ty
            &&& forall|i: int| 0 <= i < es.len() ==> well_typed(#[trigger] es[i], params, sigs, strings)
        },
        Kind::Print(i) => 0 <= i < strings && e.ty == Ty::Unit,
        Kind::Add(l, r) => {
            &&& e.ty == Ty::Int
            &&& l.ty == Ty::Int
            &&& r.ty == Ty::Int
            &&& well_typed(*l, params, sigs, strings)
            &&& well_typed(*r, params, sigs, strings)
        },
        Kind::Call(f, args) => {
            &&& 0 <= f < sigs.len()
            &&& e.ty == sigs[f].return_type
            &&& args.len() == sigs[f].parameters.len()
            &&& forall|i: int|
                0 <= i < args.len() ==> (#[trigger] args[i]).ty == sigs[f].parameters[i] && well_typed(
                    args[i],
                    params,
                    sigs,
                    strings,
                )
        },
    }
}

/// Well-typedness survives the addition of functions and strings.
pub proof fn lemma_well_typed_grows(e: Typed, params: Seq<Ty>, sigs: Seq<Signature>, strings: nat, more_sigs: Seq<Signature>, more_strings: nat)
    requires
        well_typed(e, params, sigs, strings),
        is_prefix(sigs, more_sigs),
        strings <= more_strings,
    ensures
        well_typed(e, params, more_sigs, more_strings),
    decreases e,
{
    match e.kind {
        Kind::Do(es) => {
            assert forall|i: int| 0 <= i < es.len() implies well_typed(#[trigger] es[i], params, more_sigs, more_strings) by {
                assert(decreases_to!(e => e.kind));
                lemma_well_typed_grows(es[i], params, sigs, strings, more_sigs, more_strings);
            }
        },
        Kind::Add(l, r) => {
            lemma_well_typed_grows(*l, params, sigs, strings, more_sigs, more_strings);
            lemma_well_typed_grows(*r, params, sigs, strings, more_sigs, more_strings);
        },
        Kind::Call(f, args) => {
            assert forall|i: int| 0 <= i < args.len() implies well_typed(#[trigger] args[i], params, more_sigs, more_strings) by {
                assert(decreases_to!(e => e.kind));
                lemma_well_typed_grows(args[i], params, sigs, strings, more_sigs, more_strings);
            }
        },
        _ => {},
    }
}

/// A function of the typed program.
#[derive(Debug)]
pub struct Function {
    pub symbol: String,
    pub parameters: Vec<Type>,
    pub return_type: Type,
    pub body: TypedExpression,
}

/// The value of a program function.
pub struct FunctionModel {
    pub symbol: Seq<char>,
    pub parameters: Seq<Ty>,
    pub return_type: Ty,
    pub body: Typed,
}

impl View for Function {
    type V = FunctionModel;

    open spec fn view(&self) -> FunctionModel {
        FunctionModel {
            symbol: self.symbol@,
            parameters: tys(self.parameters@),
            return_type: self.return_type@,
            body: self.body@,
        }
    }
}

/// A checked program: the strings it prints, its functions, and the index of `main`.
#[derive(Debug)]
pub struct Program {
    pub strings: Vec<Vec<u8>>,
    pub functions: Vec<Function>,
    pub main: usize,
}

/// The value of a checked program.
pub struct ProgramModel {
    pub strings: Seq<Seq<u8>>,
    pub functions: Seq<FunctionModel>,
    pub main: int,
}

impl View for Program {
    type V = ProgramModel;

    open spec fn view(&self) -> ProgramModel {
        ProgramModel {
            strings: Seq::new(self.strings@.len(), |i: int| self.strings@[i]@),
            functions: views(self.functions@),
            main: self.main as int,
        }
    }
}

/// The signatures of a program's functions.
pub open spec fn signatures(fs: Seq<FunctionModel>) -> Seq<Signature> {
    Seq::new(fs.len(), |i: int| Signature { parameters: fs[i].parameters, return_type: fs[i].return_type })
}

/// Whether a checked program is what code generation expects: `main` exists with
/// the entry signature, every signature is concrete, and every body is well typed and
/// has its function's return type.
pub open spec fn well_formed(p: ProgramModel) -> bool {
    &&& 0 <= p.main < p.functions.len()
    &&& p.functions[p.main].symbol == "main"@
    &&& p.functions[p.main].parameters == seq![Ty::Array(Box::new(Ty::String))]
    &&& p.functions[p.main].return_type == Ty::Int
    &&& forall|i: int|
        #![trigger p.functions[i]]
        0 <= i < p.functions.len() ==> {
            &&& forall|j: int| 0 <= j < p.functions[i].parameters.len() ==> is_concrete(#[trigger] p.functions[i].parameters[j])
            &&& is_concrete(p.functions[i].return_type)
            &&& well_typed(p.functions[i].body, p.functions[i].parameters, signatures(p.functions), p.strings.len())
            &&& p.functions[i].body.ty == p.functions[i].return_type
        }
}

} // verus!
