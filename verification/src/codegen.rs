//! Code generation: a checked program to a native object file, through Cranelift.
//!
//! Every call into Cranelift goes through one small wrapper below, whose contract
//! speaks of a model of what Cranelift holds: the declarations and definitions of the
//! object module, the signatures, and the blocks, values and instructions of the
//! function being built. The walk over the program, the instructions it hands to
//! Cranelift and the diagnostics are verified against that model.

use vstd::prelude::*;

use cranelift_codegen::ir;
use cranelift_codegen::ir::InstBuilder;
use cranelift_codegen::ir::Signature as NativeSignature;
use cranelift_codegen::settings;
use cranelift_codegen::settings::Configurable;
use cranelift_frontend::{FunctionBuilder, FunctionBuilderContext};
use cranelift_module::{DataDescription, DataId, FuncId, Module, ModuleError};
use cranelift_object::object::write::Error as ObjectWriteError;
use cranelift_object::{ObjectBuilder, ObjectModule, ObjectProduct};

use crate::program::{
    signatures, well_formed, well_typed, ExpressionKind, FunctionModel, Kind, Program, ProgramModel,
    Signature, Typed, TypedExpression,
};
use crate::text::{decimal, decimal_text, digit_char, join2, join3, join5};
use crate::types::{error, type_text, Ty, Type};
use crate::Error;

verus! {

// ---------------------------------------------------------------------------
// Cranelift's types
// ---------------------------------------------------------------------------

#[verifier::external_type_specification]
#[verifier::external_body]
pub struct ExFlagBuilder(settings::Builder);

#[verifier::external_type_specification]
#[verifier::external_body]
pub struct ExSetError(settings::SetError);

#[verifier::external_type_specification]
#[verifier::external_body]
pub struct ExCodegenError(cranelift_codegen::CodegenError);

#[verifier::external_type_specification]
#[verifier::external_body]
pub struct ExObjectBuilder(ObjectBuilder);

#[verifier::external_type_specification]
#[verifier::external_body]
pub struct ExObjectModule(ObjectModule);

#[verifier::external_type_specification]
#[verifier::external_body]
pub struct ExObjectProduct(ObjectProduct);

#[verifier::external_type_specification]
#[verifier::external_body]
pub struct ExModuleError(ModuleError);

#[verifier::external_type_specification]
#[verifier::external_body]
pub struct ExWriteError(ObjectWriteError);

#[verifier::external_type_specification]
#[verifier::external_body]
pub struct ExDataDescription(DataDescription);

#[verifier::external_type_specification]
#[verifier::external_body]
pub struct ExSignature(NativeSignature);

#[verifier::external_type_specification]
#[verifier::external_body]
pub struct ExContext(cranelift_codegen::Context);

#[verifier::external_type_specification]
#[verifier::external_body]
pub struct ExFunctionBuilderContext(FunctionBuilderContext);

#[verifier::external_type_specification]
#[verifier::external_body]
pub struct ExFunctionBuilder<'a>(FunctionBuilder<'a>);

/// The native compilation target that `cranelift_native` detected. It holds an
/// `isa::Builder`, whose type names the trait object `dyn TargetIsa`, which Verus
/// cannot be told of; so the holder is opaque.
#[verifier::external_body]
pub struct NativeTarget {
    builder: cranelift_codegen::isa::Builder,
}

/// A configured native instruction set, an `OwnedTargetIsa` (`Arc<dyn TargetIsa>`),
/// held opaquely for the same reason.
#[verifier::external_body]
pub struct TargetMachine {
    isa: cranelift_codegen::isa::OwnedTargetIsa,
}

// ---------------------------------------------------------------------------
// The model of what Cranelift holds
// ---------------------------------------------------------------------------

/// A native integer type: Cranelift's `I16`, `I32` or `I64`.
#[derive(PartialEq, Eq, Structural, Clone, Copy)]
pub enum NativeKind {
    I16,
    I32,
    I64,
}

/// How a symbol of the object file is bound.
#[derive(PartialEq, Eq, Structural, Clone, Copy)]
pub enum Linkage {
    /// Defined elsewhere and linked in.
    Import,
    /// Defined here and visible only in this object file.
    Local,
    /// Defined here and visible to the linker.
    Export,
}

/// Why a trap instruction stops the program.
#[derive(PartialEq, Eq, Structural, Clone, Copy)]
pub enum TrapKind {
    /// `TrapCode::INTEGER_OVERFLOW`.
    IntegerOverflow,
}

/// A native signature: its parameter and result types.
pub struct SignatureModel {
    pub parameters: Seq<NativeKind>,
    pub returns: Seq<NativeKind>,
}

/// A function declared in an object module, and, once it is defined, the
/// instructions it was defined from.
pub struct FunctionRecord {
    pub name: Seq<char>,
    pub linkage: Linkage,
    pub signature: SignatureModel,
    pub defined: bool,
    pub code: Seq<Instruction>,
}

/// A data object declared in an object module, with its contents once defined.
pub struct DataRecord {
    pub name: Seq<char>,
    pub linkage: Linkage,
    pub writable: bool,
    pub tls: bool,
    pub contents: Option<Seq<u8>>,
}

/// What an object module holds: its functions and data objects, by identifier, and
/// the pointer width of its target in bits.
pub struct ModuleModel {
    pub functions: Seq<FunctionRecord>,
    pub data: Seq<DataRecord>,
    pub pointer_bits: u8,
}

/// How far a block has been filled with instructions.
#[derive(PartialEq, Eq, Structural, Clone, Copy)]
pub enum Fill {
    /// No instruction yet.
    Empty,
    /// Some instructions, no terminator.
    Partial,
    /// Ended by a terminator.
    Filled,
}

/// A block of the function being built.
pub struct BlockModel {
    pub fill: Fill,
    pub sealed: bool,
    /// Whether some branch leads to the block.
    pub targeted: bool,
    pub parameters: Seq<u32>,
}

/// An instruction, with the numbers of the values it reads and defines. `Call`
/// names the module's function identifier, `SymbolValue` the data object's.
pub enum Instruction {
    Iconst { kind: NativeKind, immediate: i64, result: u32 },
    SymbolValue { kind: NativeKind, data: u32, result: u32 },
    Call { callee: u32, arguments: Seq<u32>, results: Seq<u32> },
    SaddOverflow { left: u32, right: u32, sum: u32, overflow: u32 },
    Trapnz { condition: u32, code: TrapKind },
    Ireduce { kind: NativeKind, value: u32, result: u32 },
    Return { values: Seq<u32> },
}

/// The function being built: its signature, its blocks, the block that instructions
/// go to, how many values it has, its instructions in the order they were made
/// (each appended to the current block), the functions it references (module
/// identifier and number of results), the data objects it references, and the
/// instructions its function will hold once the builder is finalized (the same for
/// the builder all along).
pub struct BuilderModel {
    pub signature: SignatureModel,
    pub blocks: Seq<BlockModel>,
    pub position: Option<u32>,
    pub values: nat,
    pub code: Seq<Instruction>,
    pub callees: Seq<(u32, nat)>,
    pub globals: Seq<u32>,
    pub destination: Seq<Instruction>,
}

/// A compilation context: whether its function is still empty, and the signature
/// it has been given.
pub struct ContextModel {
    pub empty: bool,
    pub signature: SignatureModel,
}

/// What an object module holds.
pub uninterp spec fn module_model(module: ObjectModule) -> ModuleModel;

/// The parameter and result types of a native signature.
pub uninterp spec fn signature_model(signature: NativeSignature) -> SignatureModel;

/// The contents a data description has been given, if any.
pub uninterp spec fn description_contents(description: DataDescription) -> Option<Seq<u8>>;

/// What a compilation context holds.
pub uninterp spec fn context_model(context: cranelift_codegen::Context) -> ContextModel;

/// Whether a function builder context holds nothing from an earlier function.
pub uninterp spec fn builder_context_empty(context: FunctionBuilderContext) -> bool;

/// The function that a function builder is building.
pub uninterp spec fn builder_model(function: FunctionBuilder<'_>) -> BuilderModel;

/// The instructions of a compilation context's function.
pub uninterp spec fn context_code(context: cranelift_codegen::Context) -> Seq<Instruction>;

/// The linkage of a symbol declared twice (`Linkage::merge`).
pub open spec fn merged(a: Linkage, b: Linkage) -> Linkage {
    if a == Linkage::Export || b == Linkage::Export {
        Linkage::Export
    } else if a == Linkage::Import && b == Linkage::Import {
        Linkage::Import
    } else {
        Linkage::Local
    }
}

/// Whether a symbol of this linkage is defined in this object file.
pub open spec fn definable(l: Linkage) -> bool {
    l != Linkage::Import
}

/// Whether a symbol name holds a NUL character, which Cranelift refuses.
pub open spec fn has_nul(name: Seq<char>) -> bool {
    name.contains('\0')
}

/// The identifier of the module's function with this name, if any (Cranelift keeps
/// names unique).
pub open spec fn function_named(fs: Seq<FunctionRecord>, name: Seq<char>) -> Option<int> {
    if exists|i: int| 0 <= i < fs.len() && (#[trigger] fs[i]).name == name {
        Some(choose|i: int| 0 <= i < fs.len() && (#[trigger] fs[i]).name == name)
    } else {
        None
    }
}

/// The identifier of the module's data object with this name, if any.
pub open spec fn data_named(ds: Seq<DataRecord>, name: Seq<char>) -> Option<int> {
    if exists|i: int| 0 <= i < ds.len() && (#[trigger] ds[i]).name == name {
        Some(choose|i: int| 0 <= i < ds.len() && (#[trigger] ds[i]).name == name)
    } else {
        None
    }
}

/// Whether every function and data object that must be defined here is defined.
pub open spec fn complete(m: ModuleModel) -> bool {
    &&& forall|i: int| 0 <= i < m.functions.len() && definable(#[trigger] m.functions[i].linkage) ==> m.functions[i].defined
    &&& forall|i: int| 0 <= i < m.data.len() && definable(#[trigger] m.data[i].linkage) ==> m.data[i].contents is Some
}

/// The values numbered `start`, `start + 1`, ..., `count` of them.
pub open spec fn fresh_values(start: nat, count: nat) -> Seq<u32> {
    Seq::new(count, |i: int| (start + i) as u32)
}

/// The values an instruction defines.
pub open spec fn results_of(instruction: Instruction) -> Seq<u32> {
    match instruction {
        Instruction::Iconst { result, .. } => seq![result],
        Instruction::SymbolValue { result, .. } => seq![result],
        Instruction::Call { results, .. } => results,
        Instruction::SaddOverflow { sum, overflow, .. } => seq![sum, overflow],
        Instruction::Ireduce { result, .. } => seq![result],
        _ => Seq::empty(),
    }
}

/// Whether instructions can be appended to the function being built: it has a
/// current block, and that block has no terminator.
pub open spec fn insertable(s: BuilderModel) -> bool {
    &&& s.position is Some
    &&& s.position->Some_0 < s.blocks.len()
    &&& s.blocks[s.position->Some_0 as int].fill != Fill::Filled
}

/// The function being built after `instruction` is appended to the current block,
/// with `results` new values; a terminator fills the block.
pub open spec fn appended(s: BuilderModel, instruction: Instruction, results: nat, terminator: bool) -> BuilderModel {
    let p = s.position->Some_0 as int;
    BuilderModel {
        code: s.code.push(instruction),
        values: s.values + results,
        blocks: s.blocks.update(p, BlockModel { fill: if terminator { Fill::Filled } else { Fill::Partial }, ..s.blocks[p] }),
        ..s
    }
}

/// Whether each of `values` is a value of the function being built.
pub open spec fn all_below(values: Seq<u32>, count: nat) -> bool {
    forall|i: int| 0 <= i < values.len() ==> values[i] < count
}

// ---------------------------------------------------------------------------
// Calls into Cranelift
// ---------------------------------------------------------------------------

/// `settings::builder`: the builder of Cranelift's shared settings, with defaults.
#[verifier::external_body]
fn flag_builder() -> (r: settings::Builder) {
    settings::builder()
}

/// `Configurable::set` on the shared settings: sets setting `name` to `value`.
#[verifier::external_body]
fn set_flag(flags: &mut settings::Builder, name: &str, value: &str) -> (r: Result<(), settings::SetError>) {
    flags.set(name, value)
}

/// The text of a settings error (its `Display`).
#[verifier::external_body]
fn set_error_text(e: &settings::SetError) -> (r: String) {
    e.to_string()
}

/// `cranelift_native::builder`: the target of the machine that runs the compiler,
/// or the reason it is not supported.
#[verifier::external_body]
fn native_target() -> (r: Result<NativeTarget, &'static str>) {
    match cranelift_native::builder() {
        Ok(builder) => Ok(NativeTarget { builder }),
        Err(reason) => Err(reason),
    }
}

/// `isa::Builder::finish` with the shared settings `flags` (made into
/// `settings::Flags`): the configured instruction set.
#[verifier::external_body]
fn finish_target(target: &NativeTarget, flags: settings::Builder) -> (r: Result<TargetMachine, cranelift_codegen::CodegenError>) {
    match target.builder.finish(settings::Flags::new(flags)) {
        Ok(isa) => Ok(TargetMachine { isa }),
        Err(e) => Err(e),
    }
}

/// The text of a code generation error (its `Display`).
#[verifier::external_body]
fn codegen_error_text(e: &cranelift_codegen::CodegenError) -> (r: String) {
    e.to_string()
}

/// `ObjectBuilder::new` for the instruction set `machine`, an object named `name`, and
/// Cranelift's default library call names.
#[verifier::external_body]
fn object_builder(machine: TargetMachine, name: &str) -> (r: Result<ObjectBuilder, ModuleError>) {
    ObjectBuilder::new(machine.isa, name, cranelift_module::default_libcall_names())
}

/// The text of a module error (its `Display`).
#[verifier::external_body]
fn module_error_text(e: &ModuleError) -> (r: String) {
    e.to_string()
}

/// `ObjectModule::new`: a module with no declarations yet.
#[verifier::external_body]
fn object_module(builder: ObjectBuilder) -> (r: ObjectModule)
    ensures
        module_model(r).functions.len() == 0,
        module_model(r).data.len() == 0,
{
    ObjectModule::new(builder)
}

/// `TargetFrontendConfig::pointer_bits` of the module's `target_config`: the width of
/// the target's pointers in bits, which `PointerWidth::bits` gives as 16, 32 or 64.
#[verifier::external_body]
fn pointer_bits(module: &ObjectModule) -> (r: u8)
    ensures
        r == module_model(*module).pointer_bits,
        r == 16 || r == 32 || r == 64,
{
    module.target_config().pointer_bits()
}

/// `Module::make_signature`: a signature in the target's calling convention, with no
/// parameters and no results.
#[verifier::external_body]
fn make_signature(module: &ObjectModule) -> (r: NativeSignature)
    ensures
        signature_model(r).parameters.len() == 0,
        signature_model(r).returns.len() == 0,
{
    module.make_signature()
}

/// Appends a parameter of type `kind` (`AbiParam::new`) to a signature.
#[verifier::external_body]
fn add_parameter(signature: &mut NativeSignature, kind: NativeKind)
    ensures
        signature_model(*final(signature)) == (SignatureModel { parameters: signature_model(*old(signature)).parameters.push(kind), ..signature_model(*old(signature)) }),
{
    let ty = match kind {
        NativeKind::I16 => ir::types::I16,
        NativeKind::I32 => ir::types::I32,
        NativeKind::I64 => ir::types::I64,
    };
    signature.params.push(ir::AbiParam::new(ty))
}

/// Appends a result of type `kind` (`AbiParam::new`) to a signature.
#[verifier::external_body]
fn add_return(signature: &mut NativeSignature, kind: NativeKind)
    ensures
        signature_model(*final(signature)) == (SignatureModel { returns: signature_model(*old(signature)).returns.push(kind), ..signature_model(*old(signature)) }),
{
    let ty = match kind {
        NativeKind::I16 => ir::types::I16,
        NativeKind::I32 => ir::types::I32,
        NativeKind::I64 => ir::types::I64,
    };
    signature.returns.push(ir::AbiParam::new(ty))
}

/// `Clone::clone` of a signature.
#[verifier::external_body]
fn clone_signature(signature: &NativeSignature) -> (r: NativeSignature)
    ensures
        signature_model(r) == signature_model(*signature),
{
    signature.clone()
}

/// `Module::declare_function`: declares function `name` with this linkage and
/// signature. A name that holds NUL is refused. A new name gets the next identifier
/// and a record; a name the module already has as a function keeps its identifier,
/// its linkage is merged, and the call succeeds only if the signatures are equal. A
/// new name without NUL is always accepted. Nothing is said of the module after a
/// refusal. Numbering a new function at `u32::MAX` trips a debug assertion, so that
/// is ruled out.
#[verifier::external_body]
fn declare_function(module: &mut ObjectModule, name: &str, linkage: Linkage, signature: &NativeSignature) -> (r: Result<u32, ModuleError>)
    requires
        module_model(*old(module)).functions.len() < u32::MAX,
    ensures
        ({
            let before = module_model(*old(module));
            let after = module_model(*final(module));
            &&& r matches Ok(id) ==> {
                &&& !has_nul(name@)
                &&& after.data == before.data
                &&& after.pointer_bits == before.pointer_bits
                &&& match function_named(before.functions, name@) {
                    None => id == before.functions.len() && after.functions == before.functions.push(
                        FunctionRecord { name: name@, linkage, signature: signature_model(*signature), defined: false, code: Seq::empty() },
                    ),
                    Some(k) => id == k && before.functions[k].signature == signature_model(*signature)
                        && after.functions == before.functions.update(
                        k,
                        FunctionRecord { linkage: merged(before.functions[k].linkage, linkage), ..before.functions[k] },
                    ),
                }
            }
            &&& (!has_nul(name@) && function_named(before.functions, name@) is None && data_named(before.data, name@) is None)
                ==> r is Ok
        }),
{
    let linkage = match linkage {
        Linkage::Import => cranelift_module::Linkage::Import,
        Linkage::Local => cranelift_module::Linkage::Local,
        Linkage::Export => cranelift_module::Linkage::Export,
    };
    match module.declare_function(name, linkage, signature) {
        Ok(id) => Ok(id.as_u32()),
        Err(e) => Err(e),
    }
}

/// `Module::declare_data`: declares data object `name` with this linkage, writable or
/// not, thread-local or not. A name that holds NUL, or that the module has as a
/// function, is refused. A new name gets the next identifier and a record with no
/// contents; a data name already declared keeps its identifier, with the linkage
/// merged and the writability joined. Declaring a name again with another `tls`
/// panics, and numbering a new object at `u32::MAX` trips a debug assertion, so both
/// are ruled out.
#[verifier::external_body]
fn declare_data(module: &mut ObjectModule, name: &str, linkage: Linkage, writable: bool, tls: bool) -> (r: Result<u32, ModuleError>)
    requires
        module_model(*old(module)).data.len() < u32::MAX,
        forall|i: int| 0 <= i < module_model(*old(module)).data.len() && (#[trigger] module_model(*old(module)).data[i]).name == name@
            ==> module_model(*old(module)).data[i].tls == tls,
    ensures
        ({
            let before = module_model(*old(module));
            let after = module_model(*final(module));
            &&& r matches Ok(id) ==> {
                &&& !has_nul(name@)
                &&& after.functions == before.functions
                &&& after.pointer_bits == before.pointer_bits
                &&& match data_named(before.data, name@) {
                    None => id == before.data.len() && after.data == before.data.push(
                        DataRecord { name: name@, linkage, writable, tls, contents: None },
                    ),
                    Some(k) => id == k && after.data == before.data.update(
                        k,
                        DataRecord { linkage: merged(before.data[k].linkage, linkage), writable: before.data[k].writable || writable, ..before.data[k] },
                    ),
                }
            }
            &&& (!has_nul(name@) && function_named(before.functions, name@) is None && data_named(before.data, name@) is None)
                ==> r is Ok
        }),
{
    let linkage = match linkage {
        Linkage::Import => cranelift_module::Linkage::Import,
        Linkage::Local => cranelift_module::Linkage::Local,
        Linkage::Export => cranelift_module::Linkage::Export,
    };
    match module.declare_data(name, linkage, writable, tls) {
        Ok(id) => Ok(id.as_u32()),
        Err(e) => Err(e),
    }
}

/// `DataDescription::new`: the description of a data object with no contents yet.
#[verifier::external_body]
fn data_description() -> (r: DataDescription)
    ensures
        description_contents(r) is None,
{
    DataDescription::new()
}

/// `DataDescription::define`: the data object's contents are `bytes`. Defining them
/// twice trips a debug assertion, so that is ruled out.
#[verifier::external_body]
fn define_bytes(description: &mut DataDescription, bytes: Vec<u8>)
    requires
        description_contents(*old(description)) is None,
    ensures
        description_contents(*final(description)) == Some(bytes@),
{
    description.define(bytes.into_boxed_slice())
}

/// `Module::define_data`: defines the declared data object `id` with the
/// description's contents. It succeeds exactly when the object may be defined here
/// and is not defined yet, and then records the contents; a refusal changes nothing.
/// An identifier the module did not give out, or a description without contents,
/// makes it panic, so both are ruled out. (The pointer width it asks of the target is
/// known for every target that `cranelift_native` detects.)
#[verifier::external_body]
fn define_data(module: &mut ObjectModule, id: u32, description: &DataDescription) -> (r: Result<(), ModuleError>)
    requires
        id < module_model(*old(module)).data.len(),
        description_contents(*description) is Some,
    ensures
        ({
            let before = module_model(*old(module));
            let after = module_model(*final(module));
            &&& (r is Ok) == (definable(before.data[id as int].linkage) && before.data[id as int].contents is None)
            &&& r is Ok ==> after == (ModuleModel {
                data: before.data.update(id as int, DataRecord { contents: description_contents(*description), ..before.data[id as int] }),
                ..before
            })
            &&& r is Err ==> after == before
        }),
{
    module.define_data(DataId::from_u32(id), description)
}

/// `Module::make_context`: a compilation context whose function is empty and has a
/// signature with no parameters and no results.
#[verifier::external_body]
fn make_context(module: &ObjectModule) -> (r: cranelift_codegen::Context)
    ensures
        context_model(r).empty,
        context_model(r).signature.parameters.len() == 0,
        context_model(r).signature.returns.len() == 0,
{
    module.make_context()
}

/// Gives the context's function the signature `signature`.
#[verifier::external_body]
fn set_function_signature(context: &mut cranelift_codegen::Context, signature: NativeSignature)
    ensures
        context_model(*final(context)) == (ContextModel { signature: signature_model(signature), ..context_model(*old(context)) }),
{
    context.func.signature = signature;
}

/// `FunctionBuilderContext::new`: an empty builder context.
#[verifier::external_body]
fn builder_context() -> (r: FunctionBuilderContext)
    ensures
        builder_context_empty(r),
{
    FunctionBuilderContext::new()
}

/// `FunctionBuilder::new` on the context's function: a builder of that function.
/// The context's function is asked to be empty, so that the builder starts with no
/// blocks, values, instructions or references; a builder context left over from
/// another function trips a debug assertion, so it is ruled out.
#[verifier::external_body]
fn function_builder<'a>(context: &'a mut cranelift_codegen::Context, builder_context: &'a mut FunctionBuilderContext) -> (r: FunctionBuilder<'a>)
    requires
        context_model(*old(context)).empty,
        builder_context_empty(*old(builder_context)),
    ensures
        builder_model(r) == (BuilderModel {
            signature: context_model(*old(context)).signature,
            blocks: Seq::empty(),
            position: None,
            values: 0,
            code: Seq::empty(),
            callees: Seq::empty(),
            globals: Seq::empty(),
            destination: context_code(*final(context)),
        }),
{
    FunctionBuilder::new(&mut context.func, builder_context)
}

/// `FunctionBuilder::create_block`: a new, empty, unsealed block with the next
/// number.
#[verifier::external_body]
fn create_block(function: &mut FunctionBuilder<'_>) -> (r: u32)
    requires
        builder_model(*old(function)).blocks.len() < u32::MAX,
    ensures
        r == builder_model(*old(function)).blocks.len(),
        builder_model(*final(function)) == (BuilderModel {
            blocks: builder_model(*old(function)).blocks.push(
                BlockModel { fill: Fill::Empty, sealed: false, targeted: false, parameters: Seq::empty() },
            ),
            ..builder_model(*old(function))
        }),
{
    function.create_block().as_u32()
}

/// `FunctionBuilder::append_block_params_for_function_params`: gives the block one new
/// parameter per parameter of the function's signature. A block with instructions or
/// with a branch to it, or more than `u16::MAX + 1` parameters on a block, trip debug
/// assertions, so they are ruled out.
#[verifier::external_body]
fn append_function_parameters(function: &mut FunctionBuilder<'_>, block: u32)
    requires
        block < builder_model(*old(function)).blocks.len(),
        builder_model(*old(function)).blocks[block as int].fill == Fill::Empty,
        !builder_model(*old(function)).blocks[block as int].targeted,
        builder_model(*old(function)).blocks[block as int].parameters.len() + builder_model(*old(function)).signature.parameters.len() <= 0x1_0000,
        builder_model(*old(function)).values + builder_model(*old(function)).signature.parameters.len() <= u32::MAX,
    ensures
        ({
            let before = builder_model(*old(function));
            let n = before.signature.parameters.len();
            builder_model(*final(function)) == (BuilderModel {
                values: before.values + n,
                blocks: before.blocks.update(
                    block as int,
                    BlockModel { parameters: before.blocks[block as int].parameters + fresh_values(before.values, n), ..before.blocks[block as int] },
                ),
                ..before
            })
        }),
{
    function.append_block_params_for_function_params(ir::Block::from_u32(block))
}

/// `FunctionBuilder::switch_to_block`: instructions now go to `block`. Switching to a
/// block with a terminator, or away from a block with instructions but no
/// terminator, trips debug assertions, so both are ruled out.
#[verifier::external_body]
fn switch_to_block(function: &mut FunctionBuilder<'_>, block: u32)
    requires
        block < builder_model(*old(function)).blocks.len(),
        builder_model(*old(function)).blocks[block as int].fill != Fill::Filled,
        builder_model(*old(function)).position matches Some(p) ==> builder_model(*old(function)).blocks[p as int].fill != Fill::Partial,
    ensures
        builder_model(*final(function)) == (BuilderModel { position: Some(block), ..builder_model(*old(function)) }),
{
    function.switch_to_block(ir::Block::from_u32(block))
}

/// `FunctionBuilder::seal_block`: declares that every branch to `block` is known.
/// With no variables declared, nothing else changes. Sealing twice trips a debug
/// assertion, so it is ruled out.
#[verifier::external_body]
fn seal_block(function: &mut FunctionBuilder<'_>, block: u32)
    requires
        block < builder_model(*old(function)).blocks.len(),
        !builder_model(*old(function)).blocks[block as int].sealed,
    ensures
        builder_model(*final(function)) == (BuilderModel {
            blocks: builder_model(*old(function)).blocks.update(
                block as int,
                BlockModel { sealed: true, ..builder_model(*old(function)).blocks[block as int] },
            ),
            ..builder_model(*old(function))
        }),
{
    function.seal_block(ir::Block::from_u32(block))
}

/// `FunctionBuilder::block_params`: the parameters of a block of this function.
#[verifier::external_body]
fn block_params(function: &FunctionBuilder<'_>, block: u32) -> (r: Vec<u32>)
    requires
        block < builder_model(*function).blocks.len(),
    ensures
        r@ == builder_model(*function).blocks[block as int].parameters,
{
    function.block_params(ir::Block::from_u32(block)).iter().map(|v| v.as_u32()).collect()
}

/// The `iconst` instruction: the integer `value` as a new value of type `kind`.
/// `FunctionBuilder::ins` panics without a current block, and adding to a block with
/// a terminator trips a debug assertion, so both are ruled out.
#[verifier::external_body]
fn ins_iconst(function: &mut FunctionBuilder<'_>, kind: NativeKind, value: i64) -> (r: u32)
    requires
        insertable(builder_model(*old(function))),
        builder_model(*old(function)).values < u32::MAX,
        builder_model(*old(function)).code.len() < u32::MAX,
    ensures
        r == builder_model(*old(function)).values,
        builder_model(*final(function)) == appended(builder_model(*old(function)), Instruction::Iconst { kind, immediate: value, result: r }, 1, false),
{
    let ty = match kind {
        NativeKind::I16 => ir::types::I16,
        NativeKind::I32 => ir::types::I32,
        NativeKind::I64 => ir::types::I64,
    };
    function.ins().iconst(ty, value).as_u32()
}

/// The `symbol_value` instruction: the address of the data object that global value
/// `global` of this function refers to, as a new value of type `kind`.
#[verifier::external_body]
fn ins_symbol_value(function: &mut FunctionBuilder<'_>, kind: NativeKind, global: u32) -> (r: u32)
    requires
        insertable(builder_model(*old(function))),
        global < builder_model(*old(function)).globals.len(),
        builder_model(*old(function)).values < u32::MAX,
        builder_model(*old(function)).code.len() < u32::MAX,
    ensures
        r == builder_model(*old(function)).values,
        builder_model(*final(function)) == appended(
            builder_model(*old(function)),
            Instruction::SymbolValue { kind, data: builder_model(*old(function)).globals[global as int], result: r },
            1,
            false,
        ),
{
    let ty = match kind {
        NativeKind::I16 => ir::types::I16,
        NativeKind::I32 => ir::types::I32,
        NativeKind::I64 => ir::types::I64,
    };
    function.ins().symbol_value(ty, ir::GlobalValue::from_u32(global)).as_u32()
}

/// The `call` instruction on function reference `callee` of this function: one new
/// value per result of the callee's signature. Returns the instruction's number.
#[verifier::external_body]
fn ins_call(function: &mut FunctionBuilder<'_>, callee: u32, arguments: &Vec<u32>) -> (r: u32)
    requires
        insertable(builder_model(*old(function))),
        callee < builder_model(*old(function)).callees.len(),
        all_below(arguments@, builder_model(*old(function)).values),
        builder_model(*old(function)).values + builder_model(*old(function)).callees[callee as int].1 <= u32::MAX,
        builder_model(*old(function)).code.len() < u32::MAX,
    ensures
        r == builder_model(*old(function)).code.len(),
        ({
            let before = builder_model(*old(function));
            let n = before.callees[callee as int].1;
            builder_model(*final(function)) == appended(
                before,
                Instruction::Call { callee: before.callees[callee as int].0, arguments: arguments@, results: fresh_values(before.values, n) },
                n,
                false,
            )
        }),
{
    let arguments: Vec<ir::Value> = arguments.iter().map(|v| ir::Value::from_u32(*v)).collect();
    function.ins().call(ir::FuncRef::from_u32(callee), arguments.as_slice()).as_u32()
}

/// `FunctionBuilder::inst_results`: the values instruction `inst` defines.
#[verifier::external_body]
fn inst_results(function: &FunctionBuilder<'_>, inst: u32) -> (r: Vec<u32>)
    requires
        inst < builder_model(*function).code.len(),
    ensures
        r@ == results_of(builder_model(*function).code[inst as int]),
{
    function.inst_results(ir::Inst::from_u32(inst)).iter().map(|v| v.as_u32()).collect()
}

/// The `sadd_overflow` instruction: two new values, the wrapped sum of `left` and
/// `right` and whether the signed addition overflowed.
#[verifier::external_body]
fn ins_sadd_overflow(function: &mut FunctionBuilder<'_>, left: u32, right: u32) -> (r: (u32, u32))
    requires
        insertable(builder_model(*old(function))),
        left < builder_model(*old(function)).values,
        right < builder_model(*old(function)).values,
        builder_model(*old(function)).values + 2 <= u32::MAX,
        builder_model(*old(function)).code.len() < u32::MAX,
    ensures
        r.0 == builder_model(*old(function)).values,
        r.1 == builder_model(*old(function)).values + 1,
        builder_model(*final(function)) == appended(
            builder_model(*old(function)),
            Instruction::SaddOverflow { left, right, sum: r.0, overflow: r.1 },
            2,
            false,
        ),
{
    let (sum, overflow) = function.ins().sadd_overflow(ir::Value::from_u32(left), ir::Value::from_u32(right));
    (sum.as_u32(), overflow.as_u32())
}

/// The `trapnz` instruction: traps with `code` when `condition` is not zero.
#[verifier::external_body]
fn ins_trapnz(function: &mut FunctionBuilder<'_>, condition: u32, code: TrapKind)
    requires
        insertable(builder_model(*old(function))),
        condition < builder_model(*old(function)).values,
        builder_model(*old(function)).code.len() < u32::MAX,
    ensures
        builder_model(*final(function)) == appended(builder_model(*old(function)), Instruction::Trapnz { condition, code }, 0, false),
{
    let code = match code {
        TrapKind::IntegerOverflow => ir::TrapCode::INTEGER_OVERFLOW,
    };
    function.ins().trapnz(ir::Value::from_u32(condition), code);
}

/// The `ireduce` instruction: `value` narrowed to type `kind`, as a new value.
#[verifier::external_body]
fn ins_ireduce(function: &mut FunctionBuilder<'_>, kind: NativeKind, value: u32) -> (r: u32)
    requires
        insertable(builder_model(*old(function))),
        value < builder_model(*old(function)).values,
        builder_model(*old(function)).values < u32::MAX,
        builder_model(*old(function)).code.len() < u32::MAX,
    ensures
        r == builder_model(*old(function)).values,
        builder_model(*final(function)) == appended(builder_model(*old(function)), Instruction::Ireduce { kind, value, result: r }, 1, false),
{
    let ty = match kind {
        NativeKind::I16 => ir::types::I16,
        NativeKind::I32 => ir::types::I32,
        NativeKind::I64 => ir::types::I64,
    };
    function.ins().ireduce(ty, ir::Value::from_u32(value)).as_u32()
}

/// The `return` instruction with these values: a terminator, which fills the block.
#[verifier::external_body]
fn ins_return(function: &mut FunctionBuilder<'_>, values: &Vec<u32>)
    requires
        insertable(builder_model(*old(function))),
        all_below(values@, builder_model(*old(function)).values),
        builder_model(*old(function)).code.len() < u32::MAX,
    ensures
        builder_model(*final(function)) == appended(builder_model(*old(function)), Instruction::Return { values: values@ }, 0, true),
{
    let values: Vec<ir::Value> = values.iter().map(|v| ir::Value::from_u32(*v)).collect();
    function.ins().return_(values.as_slice());
}

/// `Module::declare_func_in_func`: a new reference, from the function being built, to
/// the module's function `id`, whose calls have as many results as its signature.
/// The module does not change. An identifier the module did not give out makes it
/// panic, so that is ruled out.
#[verifier::external_body]
fn declare_func_in_func(module: &mut ObjectModule, id: u32, function: &mut FunctionBuilder<'_>) -> (r: u32)
    requires
        id < module_model(*old(module)).functions.len(),
        builder_model(*old(function)).callees.len() + builder_model(*old(function)).globals.len() < u32::MAX,
    ensures
        module_model(*final(module)) == module_model(*old(module)),
        r == builder_model(*old(function)).callees.len(),
        builder_model(*final(function)) == (BuilderModel {
            callees: builder_model(*old(function)).callees.push((id, module_model(*old(module)).functions[id as int].signature.returns.len())),
            ..builder_model(*old(function))
        }),
{
    module.declare_func_in_func(FuncId::from_u32(id), function.func).as_u32()
}

/// `Module::declare_data_in_func`: a new global value, in the function being built,
/// for the module's data object `id`. An identifier the module did not give out makes
/// it panic, so that is ruled out.
#[verifier::external_body]
fn declare_data_in_func(module: &ObjectModule, id: u32, function: &mut FunctionBuilder<'_>) -> (r: u32)
    requires
        id < module_model(*module).data.len(),
        builder_model(*old(function)).callees.len() + builder_model(*old(function)).globals.len() < u32::MAX,
    ensures
        r == builder_model(*old(function)).globals.len(),
        builder_model(*final(function)) == (BuilderModel {
            globals: builder_model(*old(function)).globals.push(id),
            ..builder_model(*old(function))
        }),
{
    module.declare_data_in_func(DataId::from_u32(id), function.func).as_u32()
}

/// `FunctionBuilder::finalize` on the builder that `function` holds, which is taken
/// out: the function keeps the instructions it has, since no variable needs a stack
/// map. Every block with instructions must be sealed and end in a terminator (debug
/// assertions check it, and that no instruction follows a terminator, which
/// appending cannot cause).
#[verifier::external_body]
fn finalize(function: &mut Option<FunctionBuilder<'_>>)
    requires
        *old(function) is Some,
        forall|b: int|
            0 <= b < builder_model((*old(function))->Some_0).blocks.len() && (#[trigger] builder_model((*old(function))->Some_0).blocks[b]).fill != Fill::Empty
                ==> builder_model((*old(function))->Some_0).blocks[b].sealed && builder_model((*old(function))->Some_0).blocks[b].fill == Fill::Filled,
    ensures
        *final(function) is None,
        builder_model((*old(function))->Some_0).destination == builder_model((*old(function))->Some_0).code,
{
    function.take().unwrap().finalize()
}

/// `Module::define_function`: compiles the context's function as the module's
/// function `id`. Success marks the function defined from the context's
/// instructions, and needs a function that may be defined here and is not yet; a
/// refusal changes nothing. An identifier the module did not give out makes it
/// panic, so that is ruled out.
#[verifier::external_body]
fn define_function(module: &mut ObjectModule, id: u32, context: &mut cranelift_codegen::Context) -> (r: Result<(), ModuleError>)
    requires
        id < module_model(*old(module)).functions.len(),
    ensures
        ({
            let before = module_model(*old(module));
            let after = module_model(*final(module));
            &&& r is Ok ==> definable(before.functions[id as int].linkage) && !before.functions[id as int].defined && after == (ModuleModel {
                functions: before.functions.update(id as int, FunctionRecord { defined: true, code: context_code(*old(context)), ..before.functions[id as int] }),
                ..before
            })
            &&& r is Err ==> after == before
        }),
{
    module.define_function(FuncId::from_u32(id), context)
}

/// `Module::clear_context`: readies the context for another function.
#[verifier::external_body]
fn clear_context(module: &ObjectModule, context: &mut cranelift_codegen::Context) {
    module.clear_context(context)
}

/// `ObjectModule::finish`. A function or data object that must be defined here and
/// is not trips a debug assertion, so that is ruled out.
#[verifier::external_body]
fn finish_module(module: ObjectModule) -> (r: ObjectProduct)
    requires
        complete(module_model(module)),
{
    module.finish()
}

/// `ObjectProduct::emit`: the bytes of the object file.
#[verifier::external_body]
fn emit_product(product: ObjectProduct) -> (r: Result<Vec<u8>, ObjectWriteError>) {
    product.emit()
}

/// The text of an object writing error (its `Display`).
#[verifier::external_body]
fn write_error_text(e: &ObjectWriteError) -> (r: String) {
    e.to_string()
}

// ---------------------------------------------------------------------------
// What code generation decides
// ---------------------------------------------------------------------------

/// The diagnostic for a value that code generation needed and did not get.
pub open spec fn no_value(description: Seq<char>) -> Seq<char> {
    description + " does not produce a native value"@
}

/// The diagnostic for a parameter that has no native value: `main`'s `args`.
pub open spec fn missing_parameter() -> Seq<char> {
    "using the native `args` value is not implemented yet"@
}

/// What code generation makes of an expression in a function with `n` native
/// parameters: whether the expression produces a native value, or the diagnostic
/// that it stops at.
pub open spec fn emitted(e: Typed, n: nat) -> Result<bool, Seq<char>>
    decreases e, 0int,
{
    match e.kind {
        Kind::Integer(_) => Ok(true),
        Kind::String => Ok(false),
        Kind::Parameter(i) => if 0 <= i < n {
            Ok(true)
        } else {
            Err(missing_parameter())
        },
        Kind::Do(es) => emitted_sequence(es, 0, false, n),
        Kind::Print(_) => Ok(false),
        Kind::Add(l, r) => match emitted(*l, n) {
            Err(m) => Err(m),
            Ok(left) => if !left {
                Err(no_value("left operand of `+`"@))
            } else {
                match emitted(*r, n) {
                    Err(m) => Err(m),
                    Ok(right) => if !right {
                        Err(no_value("right operand of `+`"@))
                    } else {
                        Ok(true)
                    },
                }
            },
        },
        Kind::Call(_, args) => match emitted_arguments(args, 0, n) {
            Err(m) => Err(m),
            Ok(_) => Ok(e.ty != Ty::Unit),
        },
    }
}

/// Code generation of `es[k..]` in order, after an expression that produced a value
/// or not (`last`): whether the last one produces a value.
pub open spec fn emitted_sequence(es: Seq<Typed>, k: int, last: bool, n: nat) -> Result<bool, Seq<char>>
    decreases es, es.len() - k,
{
    if k < 0 || k >= es.len() {
        Ok(last)
    } else {
        match emitted(es[k], n) {
            Err(m) => Err(m),
            Ok(b) => emitted_sequence(es, k + 1, b, n),
        }
    }
}

/// Code generation of the call arguments `es[k..]`, each of which must produce a value.
pub open spec fn emitted_arguments(es: Seq<Typed>, k: int, n: nat) -> Result<(), Seq<char>>
    decreases es, es.len() - k,
{
    if k < 0 || k >= es.len() {
        Ok(())
    } else {
        match emitted(es[k], n) {
            Err(m) => Err(m),
            Ok(b) => if !b {
                Err(no_value("function argument"@))
            } else {
                emitted_arguments(es, k + 1, n)
            },
        }
    }
}

/// Where code generation sends what an expression names: the module identifier of
/// each program function and how many results its calls have, `write` and the
/// number of its results, the data identifier and length of each string, and the
/// target's pointer type.
pub struct Target {
    pub functions: Seq<u32>,
    pub results: Seq<nat>,
    pub write: u32,
    pub write_results: nat,
    pub data: Seq<(u32, usize)>,
    pub pointer: NativeKind,
}

/// The instructions emitted so far, the value of the last expression (or, in a call,
/// the argument values), and the number of the next value.
pub struct Emission {
    pub code: Seq<Instruction>,
    pub value: Option<u32>,
    pub values: Seq<u32>,
    pub next: nat,
}

/// The instructions that code generation emits for an expression whose function has
/// the native parameter values `ps`, when the function has `next` values so far:
/// the instructions, the value the expression produces, if any, and the number of
/// values after it; or the diagnostic that stops it.
pub open spec fn emission(e: Typed, ps: Seq<u32>, t: Target, next: nat) -> Result<Emission, Seq<char>>
    decreases e, 0int,
{
    match e.kind {
        Kind::Integer(v) => Ok(Emission {
            code: seq![Instruction::Iconst { kind: NativeKind::I64, immediate: v as i64, result: next as u32 }],
            value: Some(next as u32),
            values: Seq::empty(),
            next: next + 1,
        }),
        Kind::String => Ok(Emission { code: Seq::empty(), value: None, values: Seq::empty(), next }),
        Kind::Parameter(i) => if 0 <= i < ps.len() {
            Ok(Emission { code: Seq::empty(), value: Some(ps[i]), values: Seq::empty(), next })
        } else {
            Err(missing_parameter())
        },
        Kind::Do(es) => emission_sequence(es, 0, ps, t, Emission { code: Seq::empty(), value: None, values: Seq::empty(), next }),
        Kind::Print(i) => Ok(Emission { code: print_code(t, i, next), value: None, values: Seq::empty(), next: next + 3 + t.write_results }),
        Kind::Add(l, r) => match emission(*l, ps, t, next) {
            Err(m) => Err(m),
            Ok(a) => match a.value {
                None => Err(no_value("left operand of `+`"@)),
                Some(left) => match emission(*r, ps, t, a.next) {
                    Err(m) => Err(m),
                    Ok(b) => match b.value {
                        None => Err(no_value("right operand of `+`"@)),
                        Some(right) => Ok(Emission {
                            code: a.code + b.code + add_code(left, right, b.next),
                            value: Some(b.next as u32),
                            values: Seq::empty(),
                            next: b.next + 2,
                        }),
                    },
                },
            },
        },
        Kind::Call(f, args) => match emission_arguments(args, 0, ps, t, Emission { code: Seq::empty(), value: None, values: Seq::empty(), next }) {
            Err(m) => Err(m),
            Ok(a) => Ok(Emission {
                code: a.code.push(Instruction::Call { callee: t.functions[f], arguments: a.values, results: fresh_values(a.next, t.results[f]) }),
                value: if e.ty == Ty::Unit { None } else { Some(a.next as u32) },
                values: Seq::empty(),
                next: a.next + t.results[f],
            }),
        },
    }
}

/// Printing string `i`: its address, the standard output descriptor and its length
/// as arguments of a call of `write`.
pub open spec fn print_code(t: Target, i: int, next: nat) -> Seq<Instruction> {
    seq![
        Instruction::SymbolValue { kind: t.pointer, data: t.data[i].0, result: next as u32 },
        Instruction::Iconst { kind: NativeKind::I32, immediate: 1, result: (next + 1) as u32 },
        Instruction::Iconst { kind: t.pointer, immediate: t.data[i].1 as i64, result: (next + 2) as u32 },
        Instruction::Call {
            callee: t.write,
            arguments: seq![(next + 1) as u32, next as u32, (next + 2) as u32],
            results: fresh_values(next + 3, t.write_results),
        },
    ]
}

/// Integer addition: the signed sum with its overflow flag, and a trap with
/// `INTEGER_OVERFLOW` when the flag is set.
pub open spec fn add_code(left: u32, right: u32, next: nat) -> Seq<Instruction> {
    seq![
        Instruction::SaddOverflow { left, right, sum: next as u32, overflow: (next + 1) as u32 },
        Instruction::Trapnz { condition: (next + 1) as u32, code: TrapKind::IntegerOverflow },
    ]
}

/// Emission of `es[k..]` in order after `acc`: the instructions of all of them and
/// the value of the last.
pub open spec fn emission_sequence(es: Seq<Typed>, k: int, ps: Seq<u32>, t: Target, acc: Emission) -> Result<Emission, Seq<char>>
    decreases es, es.len() - k,
{
    if k < 0 || k >= es.len() {
        Ok(acc)
    } else {
        match emission(es[k], ps, t, acc.next) {
            Err(m) => Err(m),
            Ok(x) => emission_sequence(es, k + 1, ps, t, Emission { code: acc.code + x.code, value: x.value, values: acc.values, next: x.next }),
        }
    }
}

/// Emission of the call arguments `es[k..]` after `acc`, each of which must produce a
/// value: the instructions and the argument values.
pub open spec fn emission_arguments(es: Seq<Typed>, k: int, ps: Seq<u32>, t: Target, acc: Emission) -> Result<Emission, Seq<char>>
    decreases es, es.len() - k,
{
    if k < 0 || k >= es.len() {
        Ok(acc)
    } else {
        match emission(es[k], ps, t, acc.next) {
            Err(m) => Err(m),
            Ok(x) => match x.value {
                None => Err(no_value("function argument"@)),
                Some(v) => emission_arguments(es, k + 1, ps, t, Emission { code: acc.code + x.code, value: None, values: acc.values.push(v), next: x.next }),
            },
        }
    }
}

/// Every addition checks for overflow: the code emitted for `+` ends with a signed
/// add of its operands' values, whose sum is the expression's value, followed by a
/// trap with `INTEGER_OVERFLOW` on that add's overflow flag.
pub proof fn lemma_addition_traps(e: Typed, ps: Seq<u32>, t: Target, next: nat)
    requires
        e.kind is Add,
        emission(e, ps, t, next) is Ok,
    ensures
        ({
            let em = emission(e, ps, t, next)->Ok_0;
            let n = em.code.len() as int;
            &&& n >= 2
            &&& em.code[n - 2] matches Instruction::SaddOverflow { sum, overflow, .. }
            &&& em.value == Some(em.code[n - 2]->sum)
            &&& em.code[n - 1] == (Instruction::Trapnz { condition: em.code[n - 2]->overflow, code: TrapKind::IntegerOverflow })
        }),
{
    let em = emission(e, ps, t, next)->Ok_0;
    let a = emission(*e.kind->Add_0, ps, t, next)->Ok_0;
    let b = emission(*e.kind->Add_1, ps, t, a.next)->Ok_0;
    assert(em.code == a.code + b.code + add_code(a.value->Some_0, b.value->Some_0, b.next));
    let n = em.code.len() as int;
    assert(em.code[n - 2] == add_code(a.value->Some_0, b.value->Some_0, b.next)[0]);
    assert(em.code[n - 1] == add_code(a.value->Some_0, b.value->Some_0, b.next)[1]);
}

/// Printing writes to standard output: the code emitted for `(print s)` calls
/// `write` with three arguments, made before the call: the descriptor 1 (an `I32`
/// constant), the address of string `s`'s data object, and that string's length.
pub proof fn lemma_print_writes_to_standard_output(e: Typed, ps: Seq<u32>, t: Target, next: nat)
    requires
        e.kind is Print,
    ensures
        emission(e, ps, t, next) matches Ok(em) && exists|j: int, a: int, b: int, c: int|
            #![trigger em.code[j], em.code[a], em.code[b], em.code[c]]
            0 <= a < j && 0 <= b < j && 0 <= c < j && j < em.code.len()
                && em.code[j] is Call && em.code[j]->callee == t.write && em.code[j]->arguments.len() == 3
                && em.code[a] == (Instruction::Iconst { kind: NativeKind::I32, immediate: 1, result: em.code[j]->arguments[0] })
                && em.code[b] == (Instruction::SymbolValue {
                    kind: t.pointer,
                    data: t.data[e.kind->Print_0].0,
                    result: em.code[j]->arguments[1],
                })
                && em.code[c] == (Instruction::Iconst {
                    kind: t.pointer,
                    immediate: t.data[e.kind->Print_0].1 as i64,
                    result: em.code[j]->arguments[2],
                }),
{
    let em = emission(e, ps, t, next)->Ok_0;
    assert(em.code == print_code(t, e.kind->Print_0, next));
    assert(em.code[3] is Call);
}

/// A reference to parameter `i` is the `i`-th native parameter value of its function:
/// it emits no instruction and produces `ps[i]`.
pub proof fn lemma_parameter_is_native_parameter(e: Typed, ps: Seq<u32>, t: Target, next: nat)
    requires
        e.kind is Parameter,
        0 <= e.kind->Parameter_0 < ps.len(),
    ensures
        emission(e, ps, t, next) matches Ok(em) && em.code.len() == 0 && em.value == Some(ps[e.kind->Parameter_0])
            && em.next == next,
{
}

/// In a function other than `main`, parameter `i` is the function's value `i`: the
/// entry block's parameters are the function's first values, in order.
pub proof fn lemma_parameter_value_in_function(p: ProgramModel, k: int, e: Typed, t: Target)
    requires
        0 <= k < p.functions.len(),
        k != p.main,
        e.kind is Parameter,
        0 <= e.kind->Parameter_0 < p.functions[k].parameters.len(),
    ensures
        ({
            let m = native_parameter_count(p, k);
            emission(e, fresh_values(0, m), t, m) matches Ok(em) && em.code.len() == 0
                && em.value == Some(e.kind->Parameter_0 as u32)
        }),
{
}

/// An integer literal is one `I64` constant holding exactly its value, and that
/// constant is the expression's value.
pub proof fn lemma_integer_is_constant(e: Typed, ps: Seq<u32>, t: Target, next: nat)
    requires
        e.kind is Integer,
    ensures
        emission(e, ps, t, next) matches Ok(em) && em.code.len() == 1
            && em.code[0] == (Instruction::Iconst { kind: NativeKind::I64, immediate: e.kind->Integer_0 as i64, result: next as u32 })
            && em.value == Some(next as u32),
{
}

/// `+` adds its own operands, left then right: the code of `(+ a b)` is the code of
/// `a`, then the code of `b`, then a signed add whose left operand is `a`'s value and
/// whose right operand is `b`'s value.
pub proof fn lemma_addition_adds_operands(e: Typed, ps: Seq<u32>, t: Target, next: nat)
    requires
        e.kind is Add,
        emission(e, ps, t, next) is Ok,
    ensures
        ({
            let em = emission(e, ps, t, next)->Ok_0;
            let a = emission(*e.kind->Add_0, ps, t, next)->Ok_0;
            let b = emission(*e.kind->Add_1, ps, t, a.next)->Ok_0;
            let n = em.code.len() as int;
            &&& emission(*e.kind->Add_0, ps, t, next) is Ok
            &&& emission(*e.kind->Add_1, ps, t, a.next) is Ok
            &&& n == a.code.len() + b.code.len() + 2
            &&& em.code.subrange(0, a.code.len() as int) == a.code
            &&& em.code.subrange(a.code.len() as int, n - 2) == b.code
            &&& em.code[n - 2] matches Instruction::SaddOverflow { left, right, .. }
            &&& Some(left) == a.value && Some(right) == b.value
        }),
{
    let em = emission(e, ps, t, next)->Ok_0;
    let a = emission(*e.kind->Add_0, ps, t, next)->Ok_0;
    let b = emission(*e.kind->Add_1, ps, t, a.next)->Ok_0;
    assert(em.code == a.code + b.code + add_code(a.value->Some_0, b.value->Some_0, b.next));
    assert(em.code.subrange(0, a.code.len() as int) =~= a.code);
    assert(em.code.subrange(a.code.len() as int, em.code.len() - 2) =~= b.code);
    assert(em.code[em.code.len() - 2] == add_code(a.value->Some_0, b.value->Some_0, b.next)[0]);
}

/// The argument values of a call come one per argument, after those already made.
proof fn lemma_argument_values(es: Seq<Typed>, k: int, ps: Seq<u32>, t: Target, acc: Emission)
    requires
        0 <= k <= es.len(),
        emission_arguments(es, k, ps, t, acc) is Ok,
    ensures
        emission_arguments(es, k, ps, t, acc)->Ok_0.values.len() == acc.values.len() + es.len() - k,
        emission_arguments(es, k, ps, t, acc)->Ok_0.values.subrange(0, acc.values.len() as int) == acc.values,
    decreases es.len() - k,
{
    if k < es.len() {
        let x = emission(es[k], ps, t, acc.next)->Ok_0;
        let acc2 = Emission { code: acc.code + x.code, value: None, values: acc.values.push(x.value->Some_0), next: x.next };
        lemma_argument_values(es, k + 1, ps, t, acc2);
        let r = emission_arguments(es, k + 1, ps, t, acc2)->Ok_0;
        assert(r.values.subrange(0, acc.values.len() as int) =~= r.values.subrange(0, acc2.values.len() as int).subrange(
            0,
            acc.values.len() as int,
        ));
    }
}

/// A call calls its own function with one value per argument: the code of
/// `(f a1 ... an)` ends with a call of `f`'s function reference that passes `n`
/// values, and the call's value is its first result unless `f` returns `Unit`.
pub proof fn lemma_call_calls_its_function(e: Typed, ps: Seq<u32>, t: Target, next: nat)
    requires
        e.kind is Call,
        emission(e, ps, t, next) is Ok,
    ensures
        ({
            let em = emission(e, ps, t, next)->Ok_0;
            let n = em.code.len() as int;
            &&& n >= 1
            &&& em.code[n - 1] is Call
            &&& em.code[n - 1]->callee == t.functions[e.kind->Call_0]
            &&& em.code[n - 1]->arguments.len() == e.kind->Call_1.len()
            &&& em.code[n - 1]->results.len() == t.results[e.kind->Call_0]
            &&& e.ty != Ty::Unit ==> em.value == Some(em.code[n - 1]->results[0]) || t.results[e.kind->Call_0] == 0
            &&& e.ty == Ty::Unit ==> em.value is None
        }),
{
    let start = Emission { code: Seq::empty(), value: None, values: Seq::empty(), next };
    lemma_argument_values(e.kind->Call_1, 0, ps, t, start);
}

/// A function other than `main` returns its body's value: its code ends with a
/// return of the value its body produces, or of nothing when it returns `Unit`.
pub proof fn lemma_function_returns_its_value(p: ProgramModel, k: int, t: Target)
    requires
        0 <= k < p.functions.len(),
        k != p.main,
        emission(p.functions[k].body, fresh_values(0, native_parameter_count(p, k)), t, native_parameter_count(p, k)) is Ok,
    ensures
        ({
            let m = native_parameter_count(p, k);
            let em = emission(p.functions[k].body, fresh_values(0, m), t, m)->Ok_0;
            let code = function_code(p, k, t);
            let n = code.len() as int;
            &&& n == em.code.len() + 1
            &&& code.subrange(0, n - 1) == em.code
            &&& code[n - 1] == (Instruction::Return {
                values: if p.functions[k].return_type == Ty::Unit { Seq::empty() } else { seq![em.value->Some_0] },
            })
        }),
{
    let m = native_parameter_count(p, k);
    let em = emission(p.functions[k].body, fresh_values(0, m), t, m)->Ok_0;
    assert(function_code(p, k, t).subrange(0, function_code(p, k, t).len() - 1) =~= em.code);
}

/// `main` exits with its body's value: its native code is its body's code, then the
/// body's value narrowed to `I32`, then a return of that narrowed value.
pub proof fn lemma_main_returns_its_value(p: ProgramModel, t: Target)
    requires
        0 <= p.main < p.functions.len(),
        emission(p.functions[p.main].body, Seq::empty(), t, 2) matches Ok(em) && em.value is Some,
    ensures
        ({
            let em = emission(p.functions[p.main].body, Seq::empty(), t, 2)->Ok_0;
            let code = function_code(p, p.main, t);
            let n = code.len() as int;
            &&& n == em.code.len() + 2
            &&& code.subrange(0, n - 2) == em.code
            &&& exists|r: u32|
                code[n - 2] == (Instruction::Ireduce { kind: NativeKind::I32, value: em.value->Some_0, result: r })
                    && code[n - 1] == (Instruction::Return { values: seq![r] })
        }),
{
    let em = emission(p.functions[p.main].body, Seq::empty(), t, 2)->Ok_0;
    let code = function_code(p, p.main, t);
    let n = code.len() as int;
    assert(code.subrange(0, n - 2) =~= em.code);
    let r = em.next as u32;
    assert(code[n - 2] == (Instruction::Ireduce { kind: NativeKind::I32, value: em.value->Some_0, result: r }));
}

/// How many values, instructions and references (to functions and data objects) code
/// generation makes in a function.
pub struct Demand {
    pub values: nat,
    pub code: nat,
    pub references: nat,
}

/// Two demands together.
pub open spec fn plus(a: Demand, b: Demand) -> Demand {
    Demand { values: a.values + b.values, code: a.code + b.code, references: a.references + b.references }
}

/// The number of results of a call of program function `f`: one unless it returns
/// `Unit`.
pub open spec fn call_results(sigs: Seq<Signature>, f: int) -> nat {
    if 0 <= f < sigs.len() && sigs[f].return_type != Ty::Unit {
        1
    } else {
        0
    }
}

/// What emitting an expression makes, in a program whose functions have the
/// signatures `sigs`, when every part of it is emitted.
pub open spec fn demand(e: Typed, sigs: Seq<Signature>) -> Demand
    decreases e, 0int,
{
    match e.kind {
        Kind::Integer(_) => Demand { values: 1, code: 1, references: 0 },
        Kind::Do(es) => demands(es, 0, sigs),
        Kind::Print(_) => Demand { values: 4, code: 4, references: 2 },
        Kind::Add(l, r) => plus(plus(demand(*l, sigs), demand(*r, sigs)), Demand { values: 2, code: 2, references: 0 }),
        Kind::Call(f, args) => plus(demands(args, 0, sigs), Demand { values: call_results(sigs, f), code: 1, references: 1 }),
        _ => Demand { values: 0, code: 0, references: 0 },
    }
}

/// What emitting `es[k..]` makes.
pub open spec fn demands(es: Seq<Typed>, k: int, sigs: Seq<Signature>) -> Demand
    decreases es, es.len() - k,
{
    if k < 0 || k >= es.len() {
        Demand { values: 0, code: 0, references: 0 }
    } else {
        plus(demand(es[k], sigs), demands(es, k + 1, sigs))
    }
}

/// Whether program function `k` stays within what Cranelift can number: a block
/// takes at most `u16::MAX + 1` parameters, and values, instructions and references
/// (each function or data reference also names an external symbol) are numbered
/// below `u32::MAX`. Beyond these, Cranelift's debug assertions fire.
pub open spec fn function_fits(p: ProgramModel, k: int) -> bool {
    let d = demand(p.functions[k].body, signatures(p.functions));
    let m = native_parameter_count(p, k);
    let tail: nat = if k == p.main { 2 } else { 1 };
    &&& m <= 0x1_0000
    &&& m + d.values + (if k == p.main { 1nat } else { 0nat }) <= u32::MAX
    &&& d.code + tail <= u32::MAX
    &&& d.references <= u32::MAX
}

/// Whether a program stays within what Cranelift can number: its functions and
/// strings get identifiers below `u32::MAX`, and every function fits.
pub open spec fn fits(p: ProgramModel) -> bool {
    &&& p.functions.len() < u32::MAX
    &&& p.strings.len() <= u32::MAX
    &&& forall|k: int| 0 <= k < p.functions.len() ==> #[trigger] function_fits(p, k)
}

/// The references of a function being built.
pub open spec fn references(s: BuilderModel) -> nat {
    s.callees.len() + s.globals.len()
}

/// Whether a function being built has room for what `d` makes.
pub open spec fn room_for(s: BuilderModel, d: Demand) -> bool {
    &&& s.values + d.values <= u32::MAX
    &&& s.code.len() + d.code <= u32::MAX
    &&& references(s) + d.references <= u32::MAX
}

/// Whether `before`, having made what `total` makes less what `rest` makes, is
/// `after`.
pub open spec fn balanced(before: BuilderModel, after: BuilderModel, rest: Demand, total: Demand) -> bool {
    &&& after.values + rest.values == before.values + total.values
    &&& after.code.len() + rest.code == before.code.len() + total.code
    &&& references(after) + rest.references == references(before) + total.references
}

/// Nothing to make.
pub open spec fn nothing() -> Demand {
    Demand { values: 0, code: 0, references: 0 }
}

/// Whether `after` is `before` with `code` appended to its current block and `next`
/// values, and nothing else changed but the references it holds.
pub open spec fn continued(before: BuilderModel, after: BuilderModel, code: Seq<Instruction>, next: nat) -> bool {
    let p = before.position->Some_0 as int;
    &&& after.signature == before.signature
    &&& after.destination == before.destination
    &&& after.position == before.position
    &&& after.code == before.code + code
    &&& after.values == next
    &&& after.blocks == before.blocks.update(
        p,
        BlockModel { fill: if code.len() == 0 { before.blocks[p].fill } else { Fill::Partial }, ..before.blocks[p] },
    )
}

/// Whether a target fits a module and a program's signatures: every function and
/// data identifier is the module's, each call has as many results as the callee's
/// module signature (one for a non-`Unit` function, none for a `Unit` one), and
/// `write` has at most one result.
pub open spec fn target_ready(t: Target, m: ModuleModel, sigs: Seq<Signature>, strings: nat) -> bool {
    &&& t.functions.len() == sigs.len()
    &&& t.results.len() == sigs.len()
    &&& t.data.len() == strings
    &&& t.write < m.functions.len()
    &&& m.functions[t.write as int].signature.returns.len() == t.write_results
    &&& t.write_results == 1
    &&& forall|f: int|
        #![trigger t.functions[f]]
        0 <= f < sigs.len() ==> {
            &&& t.functions[f] < m.functions.len()
            &&& m.functions[t.functions[f] as int].signature.returns.len() == t.results[f]
            &&& t.results[f] == if sigs[f].return_type == Ty::Unit { 0nat } else { 1nat }
        }
    &&& forall|i: int| 0 <= i < strings ==> (#[trigger] t.data[i]).0 < m.data.len()
}

/// Why a Kal type has no native type, if it has none.
pub open spec fn native_type_error(t: Ty) -> Option<Seq<char>> {
    match t {
        Ty::Int => None,
        Ty::String => None,
        Ty::Array(_) => None,
        Ty::Unit => Some("`Unit` cannot be used as a function parameter"@),
        _ => Some("unresolved type `"@ + type_text(t) + "` reached code generation"@),
    }
}

/// The native type of a Kal type that has one: `Int` is `I64`, strings and arrays are
/// pointers.
pub open spec fn native_kind_of(t: Ty, pointer: NativeKind) -> NativeKind {
    match t {
        Ty::Int => NativeKind::I64,
        _ => pointer,
    }
}

/// The first of the types `ps[k..]` that has no native type.
pub open spec fn parameters_error(ps: Seq<Ty>, k: int) -> Option<Seq<char>>
    decreases ps.len() - k,
{
    if k < 0 || k >= ps.len() {
        None
    } else {
        match native_type_error(ps[k]) {
            Some(m) => Some(m),
            None => parameters_error(ps, k + 1),
        }
    }
}

/// Why the native signature of a (non-entry) function cannot be made, if it cannot.
pub open spec fn signature_error(f: FunctionModel) -> Option<Seq<char>> {
    match parameters_error(f.parameters, 0) {
        Some(m) => Some(m),
        None => if f.return_type == Ty::Unit {
            None
        } else {
            native_type_error(f.return_type)
        },
    }
}

/// The first diagnostic in declaring the functions `fs[k..]`; the entry function
/// `main` has a fixed signature.
pub open spec fn signatures_error_from(fs: Seq<FunctionModel>, main: int, k: int) -> Option<Seq<char>>
    decreases fs.len() - k,
{
    if k < 0 || k >= fs.len() {
        None
    } else if k == main {
        signatures_error_from(fs, main, k + 1)
    } else {
        match signature_error(fs[k]) {
            Some(m) => Some(m),
            None => signatures_error_from(fs, main, k + 1),
        }
    }
}

/// The diagnostic that the body of function `k` stops code generation at, if any:
/// one of its expressions, or a body that produces no value where one is returned.
pub open spec fn body_error(p: ProgramModel, k: int) -> Option<Seq<char>> {
    let f = p.functions[k];
    let n = if k == p.main { 0 } else { f.parameters.len() };
    match emitted(f.body, n) {
        Err(m) => Some(m),
        Ok(b) => if k == p.main {
            if b { None } else { Some(no_value("main body"@)) }
        } else if f.return_type == Ty::Unit || b {
            None
        } else {
            Some(no_value("function `"@ + f.symbol + "` body"@))
        },
    }
}

/// The first diagnostic among the bodies of functions `k..`.
pub open spec fn bodies_error_from(p: ProgramModel, k: int) -> Option<Seq<char>>
    decreases p.functions.len() - k,
{
    if k < 0 || k >= p.functions.len() {
        None
    } else {
        match body_error(p, k) {
            Some(m) => Some(m),
            None => bodies_error_from(p, k + 1),
        }
    }
}

/// The diagnostic that code generation stops at, if any: the first signature that
/// has no native form, else the first body that cannot be emitted.
pub open spec fn codegen_error(p: ProgramModel) -> Option<Seq<char>> {
    match signatures_error_from(p.functions, p.main, 0) {
        Some(m) => Some(m),
        None => bodies_error_from(p, 0),
    }
}

/// The starts of the messages for a failed Cranelift operation.
pub open spec fn failure_prefixes() -> Seq<Seq<char>> {
    seq![
        "could not configure Cranelift: "@,
        "unsupported compilation host: "@,
        "could not create the native backend: "@,
        "could not create an object module: "@,
        "could not declare `write`: "@,
        "could not declare string data: "@,
        "could not define string data: "@,
        "could not declare function `"@,
        "could not compile function `"@,
        "could not emit the object file: "@,
    ]
}

/// Whether `m` starts with `p`.
pub open spec fn has_prefix(m: Seq<char>, p: Seq<char>) -> bool {
    p.len() <= m.len() && m.subrange(0, p.len() as int) == p
}

/// A text starts with any of its beginnings.
proof fn lemma_prefix(start: Seq<char>, rest: Seq<char>)
    ensures
        has_prefix(start + rest, start),
{
    assert((start + rest).subrange(0, start.len() as int) =~= start);
}

/// Whether a message reports a failed Cranelift operation at a point that code
/// generation of `p` reaches before its diagnostic, if any: setting up the target,
/// the module, `write` or the string data (before every function); declaring
/// function `k` (once the signatures of the functions up to `k` are made);
/// compiling function `k` (once every signature is made and the bodies of the
/// functions up to `k` are emitted); or writing the object file (when there is no
/// diagnostic).
pub open spec fn failure_before_diagnostic(p: ProgramModel, m: Seq<char>) -> bool {
    ||| exists|i: int| 0 <= i < 7 && has_prefix(m, #[trigger] failure_prefixes()[i])
    ||| exists|k: int|
        0 <= k < p.functions.len() && #[trigger] has_prefix(m, failure_prefixes()[7] + p.functions[k].symbol + "`: "@)
            && signatures_error_from(p.functions, p.main, 0) == signatures_error_from(p.functions, p.main, k + 1)
    ||| exists|k: int|
        0 <= k < p.functions.len() && #[trigger] has_prefix(m, failure_prefixes()[8] + p.functions[k].symbol + "`: "@)
            && signatures_error_from(p.functions, p.main, 0) is None && bodies_error_from(p, 0) == bodies_error_from(p, k + 1)
    ||| has_prefix(m, failure_prefixes()[9]) && codegen_error(p) is None
}

/// What code generation of a program gives: an error is the program's diagnostic,
/// or a failed Cranelift operation at a point reached before it; success means the
/// program has no diagnostic.
pub open spec fn generated<T>(p: ProgramModel, r: Result<T, Error>) -> bool {
    &&& r matches Err(e) ==> codegen_error(p) == Some(e@) || failure_before_diagnostic(p, e@)
    &&& r is Ok ==> codegen_error(p) is None
}

/// The native signature `write` is declared with: a descriptor and two pointers in,
/// a pointer-sized count out.
pub open spec fn write_signature_model(pointer: NativeKind) -> SignatureModel {
    SignatureModel { parameters: seq![NativeKind::I32, pointer, pointer], returns: seq![pointer] }
}

/// The native signature of program function `k`: `main` takes the C `argc` and
/// `argv` and returns an `I32`; the others take and return their Kal types.
pub open spec fn function_signature(p: ProgramModel, k: int, pointer: NativeKind) -> SignatureModel {
    let f = p.functions[k];
    if k == p.main {
        SignatureModel { parameters: seq![NativeKind::I32, pointer], returns: seq![NativeKind::I32] }
    } else {
        SignatureModel {
            parameters: Seq::new(f.parameters.len(), |j: int| native_kind_of(f.parameters[j], pointer)),
            returns: if f.return_type == Ty::Unit { Seq::empty() } else { seq![native_kind_of(f.return_type, pointer)] },
        }
    }
}

/// The symbol of string `i`'s data object.
pub open spec fn string_name(i: nat) -> Seq<char> {
    "kal.string."@ + decimal_text(i)
}

/// The declarations of the object module for a program: `write` imported, then one
/// function per program function, `main` exported and the others local, those below
/// `defined` defined from the code of their bodies.
pub open spec fn expected_functions(p: ProgramModel, pointer: NativeKind, defined: int) -> Seq<FunctionRecord> {
    seq![
        FunctionRecord {
            name: "write"@,
            linkage: Linkage::Import,
            signature: write_signature_model(pointer),
            defined: false,
            code: Seq::empty(),
        },
    ] + Seq::new(
        p.functions.len(),
        |k: int|
            FunctionRecord {
                name: p.functions[k].symbol,
                linkage: if k == p.main { Linkage::Export } else { Linkage::Local },
                signature: function_signature(p, k, pointer),
                defined: k < defined,
                code: if k < defined { function_code(p, k, canonical_target(p, pointer)) } else { Seq::empty() },
            },
    )
}

/// The target of a program whose symbols are distinct: `write` is function 0,
/// program function `k` is function `k + 1`, string `i` is data object `i`.
pub open spec fn canonical_target(p: ProgramModel, pointer: NativeKind) -> Target {
    Target {
        functions: Seq::new(p.functions.len(), |k: int| (k + 1) as u32),
        results: Seq::new(p.functions.len(), |f: int| if p.functions[f].return_type == Ty::Unit { 0nat } else { 1nat }),
        write: 0,
        write_results: 1,
        data: Seq::new(p.strings.len(), |i: int| (i as u32, p.strings[i].len() as usize)),
        pointer,
    }
}

/// The number of native parameters of program function `k`: `main` has `argc` and
/// `argv`.
pub open spec fn native_parameter_count(p: ProgramModel, k: int) -> nat {
    if k == p.main { 2 } else { p.functions[k].parameters.len() }
}

/// The instructions of program function `k`: after its entry block takes the
/// parameters (the first values), the code of its body, then the return: `main`
/// narrows its value to `I32`, a `Unit` function returns nothing, another returns its
/// body's value.
pub open spec fn function_code(p: ProgramModel, k: int, t: Target) -> Seq<Instruction> {
    let f = p.functions[k];
    let m = native_parameter_count(p, k);
    let ps = if k == p.main { Seq::empty() } else { fresh_values(0, m) };
    match emission(f.body, ps, t, m) {
        Err(_) => Seq::empty(),
        Ok(em) => em.code + if k == p.main {
            seq![
                Instruction::Ireduce { kind: NativeKind::I32, value: em.value->Some_0, result: em.next as u32 },
                Instruction::Return { values: seq![em.next as u32] },
            ]
        } else if f.return_type == Ty::Unit {
            seq![Instruction::Return { values: Seq::empty() }]
        } else {
            seq![Instruction::Return { values: seq![em.value->Some_0] }]
        },
    }
}

/// The data objects of the object module for a program: string `i` as the local,
/// read-only object `kal.string.i` holding exactly its bytes.
pub open spec fn expected_data(p: ProgramModel) -> Seq<DataRecord> {
    Seq::new(
        p.strings.len(),
        |i: int| DataRecord { name: string_name(i as nat), linkage: Linkage::Local, writable: false, tls: false, contents: Some(p.strings[i]) },
    )
}

/// Whether the program's function symbols are distinct from each other, from `write`
/// and from the string objects' names, and free of NUL.
pub open spec fn distinct_symbols(p: ProgramModel) -> bool {
    &&& forall|k: int, j: int|
        0 <= k < j < p.functions.len() ==> (#[trigger] p.functions[k]).symbol != (#[trigger] p.functions[j]).symbol
    &&& forall|k: int|
        0 <= k < p.functions.len() ==> {
            &&& (#[trigger] p.functions[k]).symbol != "write"@
            &&& !has_nul(p.functions[k].symbol)
            &&& forall|i: nat| i < p.strings.len() ==> p.functions[k].symbol != #[trigger] string_name(i)
        }
}

/// Different numbers have different decimal notations.
proof fn lemma_decimal_injective(a: nat, b: nat)
    requires
        decimal_text(a) == decimal_text(b),
    ensures
        a == b,
    decreases a,
{
    lemma_decimal_nonempty(a);
    lemma_decimal_nonempty(b);
    if a < 10 && b < 10 {
        assert(decimal_text(a)[0] == digit_char(a));
        assert(decimal_text(b)[0] == digit_char(b));
        lemma_digit_injective(a, b);
    } else if a < 10 {
        lemma_decimal_nonempty(b / 10);
        assert(decimal_text(b).len() >= 2);
    } else if b < 10 {
        lemma_decimal_nonempty(a / 10);
        assert(decimal_text(a).len() >= 2);
    } else {
        let x = decimal_text(a / 10);
        let y = decimal_text(b / 10);
        assert(decimal_text(a) == x.push(digit_char(a % 10)));
        assert(decimal_text(b) == y.push(digit_char(b % 10)));
        assert(x =~= decimal_text(a).drop_last());
        assert(y =~= decimal_text(b).drop_last());
        assert(decimal_text(a).last() == digit_char(a % 10));
        assert(decimal_text(b).last() == digit_char(b % 10));
        lemma_digit_injective(a % 10, b % 10);
        lemma_decimal_injective(a / 10, b / 10);
    }
}

/// Different digits have different characters.
proof fn lemma_digit_injective(x: nat, y: nat)
    requires
        x < 10,
        y < 10,
        digit_char(x) == digit_char(y),
    ensures
        x == y,
{
    assert(digit_char(x) as int == 48 + x);
    assert(digit_char(y) as int == 48 + y);
}

/// A decimal notation has at least one digit.
proof fn lemma_decimal_nonempty(n: nat)
    ensures
        decimal_text(n).len() >= 1,
    decreases n,
{
    if n >= 10 {
        lemma_decimal_nonempty(n / 10);
    }
}

/// Whether the code emitted for an expression agrees with what code generation
/// decides of it: the same diagnostic, or a value exactly when one is produced.
proof fn lemma_emission_outcome(e: Typed, ps: Seq<u32>, t: Target, next: nat)
    ensures
        match emission(e, ps, t, next) {
            Err(m) => emitted(e, ps.len()) == Err::<bool, Seq<char>>(m),
            Ok(x) => emitted(e, ps.len()) == Ok::<bool, Seq<char>>(x.value is Some),
        },
    decreases e, 0int,
{
    match e.kind {
        Kind::Do(es) => {
            assert(decreases_to!(e => e.kind));
            lemma_sequence_outcome(es, 0, ps, t, Emission { code: Seq::empty(), value: None, values: Seq::empty(), next }, false);
        },
        Kind::Add(l, r) => {
            assert(decreases_to!(e => e.kind));
            lemma_emission_outcome(*l, ps, t, next);
            match emission(*l, ps, t, next) {
                Ok(a) => {
                    lemma_emission_outcome(*r, ps, t, a.next);
                },
                Err(_) => {},
            }
        },
        Kind::Call(_, args) => {
            assert(decreases_to!(e => e.kind));
            lemma_arguments_outcome(args, 0, ps, t, Emission { code: Seq::empty(), value: None, values: Seq::empty(), next });
        },
        _ => {},
    }
}

/// The sequence form of `lemma_emission_outcome`.
proof fn lemma_sequence_outcome(es: Seq<Typed>, k: int, ps: Seq<u32>, t: Target, acc: Emission, last: bool)
    requires
        (acc.value is Some) == last,
    ensures
        match emission_sequence(es, k, ps, t, acc) {
            Err(m) => emitted_sequence(es, k, last, ps.len()) == Err::<bool, Seq<char>>(m),
            Ok(x) => emitted_sequence(es, k, last, ps.len()) == Ok::<bool, Seq<char>>(x.value is Some),
        },
    decreases es, es.len() - k,
{
    if 0 <= k < es.len() {
        lemma_emission_outcome(es[k], ps, t, acc.next);
        match emission(es[k], ps, t, acc.next) {
            Ok(x) => {
                lemma_sequence_outcome(es, k + 1, ps, t, Emission { code: acc.code + x.code, value: x.value, values: acc.values, next: x.next }, x.value is Some);
            },
            Err(_) => {},
        }
    }
}

/// The argument form of `lemma_emission_outcome`.
proof fn lemma_arguments_outcome(es: Seq<Typed>, k: int, ps: Seq<u32>, t: Target, acc: Emission)
    ensures
        match emission_arguments(es, k, ps, t, acc) {
            Err(m) => emitted_arguments(es, k, ps.len()) == Err::<(), Seq<char>>(m),
            Ok(_) => emitted_arguments(es, k, ps.len()) == Ok::<(), Seq<char>>(()),
        },
    decreases es, es.len() - k,
{
    if 0 <= k < es.len() {
        lemma_emission_outcome(es[k], ps, t, acc.next);
        match emission(es[k], ps, t, acc.next) {
            Ok(x) => {
                match x.value {
                    Some(v) => {
                        lemma_arguments_outcome(es, k + 1, ps, t, Emission { code: acc.code + x.code, value: None, values: acc.values.push(v), next: x.next });
                    },
                    None => {},
                }
            },
            Err(_) => {},
        }
    }
}

/// Appending in two steps is appending the two codes.
proof fn lemma_continued_trans(a: BuilderModel, b: BuilderModel, c: BuilderModel, x: Seq<Instruction>, y: Seq<Instruction>, nb: nat, nc: nat)
    requires
        insertable(a),
        continued(a, b, x, nb),
        continued(b, c, y, nc),
    ensures
        continued(a, c, x + y, nc),
{
    assert(a.code + x + y =~= a.code + (x + y));
    let p = a.position->Some_0 as int;
    assert(c.blocks =~= a.blocks.update(
        p,
        BlockModel { fill: if (x + y).len() == 0 { a.blocks[p].fill } else { Fill::Partial }, ..a.blocks[p] },
    ));
}

/// Doing nothing continues a function with no code.
proof fn lemma_continued_same(a: BuilderModel)
    requires
        insertable(a),
    ensures
        continued(a, a, Seq::empty(), a.values),
{
    let p = a.position->Some_0 as int;
    assert(a.code + Seq::empty() =~= a.code);
    assert(a.blocks.update(p, BlockModel { fill: a.blocks[p].fill, ..a.blocks[p] }) =~= a.blocks);
}

/// Appending one instruction continues a function with that instruction.
proof fn lemma_appended_continued(a: BuilderModel, i: Instruction, results: nat)
    requires
        insertable(a),
    ensures
        continued(a, appended(a, i, results, false), seq![i], a.values + results),
        insertable(appended(a, i, results, false)),
{
    assert(a.code.push(i) =~= a.code + seq![i]);
}

// ---------------------------------------------------------------------------
// Code generation
// ---------------------------------------------------------------------------

/// The native type of the target's pointers, from their width in bits.
pub open spec fn pointer_kind_of(bits: u8) -> NativeKind {
    if bits == 16 {
        NativeKind::I16
    } else if bits == 32 {
        NativeKind::I32
    } else {
        NativeKind::I64
    }
}

/// The native type of pointers that are `bits` wide.
fn pointer_kind(bits: u8) -> (k: NativeKind)
    ensures
        k == pointer_kind_of(bits),
{
    if bits == 16 {
        NativeKind::I16
    } else if bits == 32 {
        NativeKind::I32
    } else {
        NativeKind::I64
    }
}

/// The native type of a Kal type in a function signature.
fn codegen_type(ty: &Type, pointer: NativeKind) -> (r: Result<NativeKind, Error>)
    ensures
        match native_type_error(ty@) {
            Some(m) => r matches Err(e) && e@ == m,
            None => r == Ok::<NativeKind, Error>(native_kind_of(ty@, pointer)),
        },
{
    match ty {
        Type::Int => Ok(NativeKind::I64),
        Type::String => Ok(pointer),
        Type::Array(_) => Ok(pointer),
        Type::Unit => Err(error("`Unit` cannot be used as a function parameter")),
        _ => {
            let text = ty.text();
            Err(Error::new(join3("unresolved type `", text.as_str(), "` reached code generation")))
        },
    }
}

/// The native value, or a diagnostic that `description` produces none.
fn require_value(value: Option<u32>, description: &str) -> (r: Result<u32, Error>)
    ensures
        match value {
            Some(v) => r == Ok::<u32, Error>(v),
            None => r matches Err(e) && e@ == no_value(description@),
        },
{
    match value {
        Some(v) => Ok(v),
        None => Err(Error::new(join2(description, " does not produce a native value"))),
    }
}

/// An error for a failed Cranelift operation: what failed, and Cranelift's reason.
fn failure(what: &str, reason: &str) -> (e: Error)
    ensures
        e@ == what@ + reason@,
{
    Error::new(join2(what, reason))
}

/// A count, or `2^32` if it is larger.
pub open spec fn capped(x: nat) -> nat {
    if x > 0x1_0000_0000 {
        0x1_0000_0000
    } else {
        x
    }
}

/// The sum of two capped counts, capped.
fn add_capped(a: u64, b: u64, Ghost(x): Ghost<nat>, Ghost(y): Ghost<nat>) -> (r: u64)
    requires
        a == capped(x),
        b == capped(y),
    ensures
        r == capped(x + y),
{
    if a + b > 0x1_0000_0000 {
        0x1_0000_0000
    } else {
        a + b
    }
}

/// What emitting an expression makes, each count capped at `2^32`.
fn demand_of(expression: &TypedExpression, program: &Program) -> (r: (u64, u64, u64))
    ensures
        r.0 == capped(demand(expression@, signatures(program@.functions)).values),
        r.1 == capped(demand(expression@, signatures(program@.functions)).code),
        r.2 == capped(demand(expression@, signatures(program@.functions)).references),
    decreases expression,
{
    let ghost sigs = signatures(program@.functions);
    proof {
        assert(decreases_to!(*expression => expression.kind));
    }
    match &expression.kind {
        ExpressionKind::Integer(_) => (1, 1, 0),
        ExpressionKind::Do(children) => {
            assert(expression@.kind->Do_0 =~= Seq::new(children@.len(), |i: int| children@[i]@));
            demand_of_all(children, program)
        },
        ExpressionKind::Print(_) => (4, 4, 2),
        ExpressionKind::Add(left, right) => {
            let ghost dl = demand(*expression@.kind->Add_0, sigs);
            let ghost dr = demand(*expression@.kind->Add_1, sigs);
            let a = demand_of(left, program);
            let b = demand_of(right, program);
            let v = add_capped(a.0, b.0, Ghost(dl.values), Ghost(dr.values));
            let c = add_capped(a.1, b.1, Ghost(dl.code), Ghost(dr.code));
            let f = add_capped(a.2, b.2, Ghost(dl.references), Ghost(dr.references));
            (
                add_capped(v, 2, Ghost(dl.values + dr.values), Ghost(2)),
                add_capped(c, 2, Ghost(dl.code + dr.code), Ghost(2)),
                add_capped(f, 0, Ghost(dl.references + dr.references), Ghost(0)),
            )
        },
        ExpressionKind::Call { function, arguments } => {
            assert(expression@.kind->Call_1 =~= Seq::new(arguments@.len(), |i: int| arguments@[i]@));
            let ghost da = demands(expression@.kind->Call_1, 0, sigs);
            let a = demand_of_all(arguments, program);
            let results: u64 = if *function < program.functions.len() && !program.functions[*function].return_type.same(&Type::Unit) {
                1
            } else {
                0
            };
            proof {
                assert(Type::Unit@ == Ty::Unit);
                if *function < program.functions.len() {
                    assert(sigs[*function as int].return_type == program.functions@[*function as int].return_type@);
                }
            }
            let ghost n = call_results(sigs, *function as int);
            (
                add_capped(a.0, results, Ghost(da.values), Ghost(n)),
                add_capped(a.1, 1, Ghost(da.code), Ghost(1)),
                add_capped(a.2, 1, Ghost(da.references), Ghost(1)),
            )
        },
        _ => (0, 0, 0),
    }
}

/// What emitting `children` makes, each count capped at `2^32`.
fn demand_of_all(children: &Vec<TypedExpression>, program: &Program) -> (r: (u64, u64, u64))
    ensures
        r.0 == capped(demands(Seq::new(children@.len(), |i: int| children@[i]@), 0, signatures(program@.functions)).values),
        r.1 == capped(demands(Seq::new(children@.len(), |i: int| children@[i]@), 0, signatures(program@.functions)).code),
        r.2 == capped(demands(Seq::new(children@.len(), |i: int| children@[i]@), 0, signatures(program@.functions)).references),
    decreases children,
{
    let ghost sigs = signatures(program@.functions);
    let ghost es = Seq::new(children@.len(), |i: int| children@[i]@);
    let ghost mut done = nothing();
    let mut total: (u64, u64, u64) = (0, 0, 0);
    let mut k: usize = 0;
    while k < children.len()
        invariant
            sigs == signatures(program@.functions),
            es == Seq::new(children@.len(), |i: int| children@[i]@),
            k <= children@.len(),
            total.0 == capped(done.values),
            total.1 == capped(done.code),
            total.2 == capped(done.references),
            plus(done, demands(es, k as int, sigs)) == demands(es, 0, sigs),
        decreases children@.len() - k,
    {
        proof {
            assert(decreases_to!(*children => children@));
            assert(decreases_to!(children@ => children@[k as int]));
            assert(es[k as int] == children@[k as int]@);
            assert(demands(es, k as int, sigs) == plus(demand(es[k as int], sigs), demands(es, k as int + 1, sigs)));
        }
        let ghost d = demand(es[k as int], sigs);
        let c = demand_of(&children[k], program);
        total = (
            add_capped(total.0, c.0, Ghost(done.values), Ghost(d.values)),
            add_capped(total.1, c.1, Ghost(done.code), Ghost(d.code)),
            add_capped(total.2, c.2, Ghost(done.references), Ghost(d.references)),
        );
        proof {
            done = plus(done, d);
        }
        k += 1;
    }
    total
}

/// Emits the instructions of an expression into `function`, whose native parameters
/// are `parameters`: the native value it produces, if any.
#[verifier::rlimit(60)]
fn emit_expression(
    expression: &TypedExpression,
    parameters: &Vec<u32>,
    function: &mut FunctionBuilder<'_>,
    module: &mut ObjectModule,
    function_ids: &Vec<u32>,
    write_id: u32,
    data_ids: &Vec<(u32, usize)>,
    pointer: NativeKind,
    Ghost(t): Ghost<Target>,
    Ghost(types): Ghost<Seq<Ty>>,
    Ghost(sigs): Ghost<Seq<Signature>>,
) -> (r: Result<Option<u32>, Error>)
    requires
        t.functions == function_ids@,
        t.write == write_id,
        t.data == data_ids@,
        t.pointer == pointer,
        target_ready(t, module_model(*old(module)), sigs, data_ids@.len()),
        well_typed(expression@, types, sigs, data_ids@.len()),
        insertable(builder_model(*old(function))),
        all_below(parameters@, builder_model(*old(function)).values),
        room_for(builder_model(*old(function)), demand(expression@, sigs)),
    ensures
        module_model(*final(module)) == module_model(*old(module)),
        match emission(expression@, parameters@, t, builder_model(*old(function)).values) {
            Err(m) => r matches Err(x) && x@ == m,
            Ok(em) => {
                &&& r == Ok::<Option<u32>, Error>(em.value)
                &&& continued(builder_model(*old(function)), builder_model(*final(function)), em.code, em.next)
                &&& balanced(builder_model(*old(function)), builder_model(*final(function)), nothing(), demand(expression@, sigs))
                &&& (em.value matches Some(v) ==> v < em.next)
                &&& builder_model(*old(function)).values <= em.next
            },
        },
    decreases expression,
{
    let ghost s0 = builder_model(*function);
    let ghost m0 = module_model(*module);
    let ghost ps = parameters@;
    match &expression.kind {
        ExpressionKind::Integer(value) => {
            let v = ins_iconst(function, NativeKind::I64, *value);
            proof {
                lemma_appended_continued(s0, Instruction::Iconst { kind: NativeKind::I64, immediate: *value, result: v }, 1);
            }
            Ok(Some(v))
        },
        ExpressionKind::String => {
            proof {
                lemma_continued_same(s0);
            }
            Ok(None)
        },
        ExpressionKind::Parameter(index) => {
            proof {
                lemma_continued_same(s0);
            }
            if *index < parameters.len() {
                Ok(Some(parameters[*index]))
            } else {
                Err(error("using the native `args` value is not implemented yet"))
            }
        },
        ExpressionKind::Do(expressions) => {
            let ghost es = expression@.kind->Do_0;
            let mut value: Option<u32> = None;
            let ghost mut done: Seq<Instruction> = Seq::empty();
            proof {
                lemma_continued_same(s0);
            }
            let mut k: usize = 0;
            while k < expressions.len()
                invariant
                    expression.kind == ExpressionKind::Do(*expressions),
                    es == expression@.kind->Do_0,
                    es.len() == expressions@.len(),
                    forall|i: int| 0 <= i < es.len() ==> #[trigger] es[i] == expressions@[i]@,
                    ps == parameters@,
                    t.functions == function_ids@,
                    t.write == write_id,
                    t.data == data_ids@,
                    t.pointer == pointer,
                    module_model(*module) == m0,
                    m0 == module_model(*old(module)),
                    target_ready(t, m0, sigs, data_ids@.len()),
                    well_typed(expression@, types, sigs, data_ids@.len()),
                    s0 == builder_model(*old(function)),
                    insertable(s0),
                    room_for(s0, demand(expression@, sigs)),
                    demand(expression@, sigs) == demands(es, 0, sigs),
                    k <= expressions@.len(),
                    emission(expression@, ps, t, s0.values) == emission_sequence(
                        es,
                        k as int,
                        ps,
                        t,
                        Emission { code: done, value, values: Seq::empty(), next: builder_model(*function).values },
                    ),
                    continued(s0, builder_model(*function), done, builder_model(*function).values),
                    s0.values <= builder_model(*function).values,
                    insertable(builder_model(*function)),
                    all_below(ps, builder_model(*function).values),
                    balanced(s0, builder_model(*function), demands(es, k as int, sigs), demands(es, 0, sigs)),
                    value matches Some(v) ==> v < builder_model(*function).values,
                decreases expressions@.len() - k,
            {
                proof {
                    assert(decreases_to!(*expression => expression.kind));
                    assert(decreases_to!(expression.kind => *expressions));
                    assert(decreases_to!(*expressions => expressions@));
                    assert(decreases_to!(expressions@ => expressions@[k as int]));
                    assert(es[k as int] == expressions@[k as int]@);
                    assert(demands(es, k as int, sigs) == plus(demand(es[k as int], sigs), demands(es, k as int + 1, sigs)));
                }
                let ghost before = builder_model(*function);
                value = match emit_expression(&expressions[k], parameters, function, module, function_ids, write_id, data_ids, pointer, Ghost(t), Ghost(types), Ghost(sigs)) {
                    Ok(v) => v,
                    Err(e) => {
                        return Err(e);
                    },
                };
                proof {
                    let x = emission(es[k as int], ps, t, before.values)->Ok_0;
                    lemma_continued_trans(s0, before, builder_model(*function), done, x.code, before.values, x.next);
                    done = done + x.code;
                }
                k += 1;
            }
            Ok(value)
        },
        ExpressionKind::Print(index) => {
            let (data_id, length) = data_ids[*index];
            let write = declare_func_in_func(module, write_id, function);
            let data = declare_data_in_func(module, data_id, function);
            let ghost s1 = builder_model(*function);
            let address = ins_symbol_value(function, pointer, data);
            let stdout = ins_iconst(function, NativeKind::I32, 1);
            let length = ins_iconst(function, pointer, #[verifier::truncate] (length as i64));
            let arguments = vec![stdout, address, length];
            let _call = ins_call(function, write, &arguments);
            proof {
                let s = builder_model(*function);
                let n = s0.values;
                assert(arguments@ =~= seq![(n + 1) as u32, n as u32, (n + 2) as u32]);
                assert(s.code =~= s0.code + print_code(t, *index as int, n));
                assert(s.blocks =~= s0.blocks.update(
                    s0.position->Some_0 as int,
                    BlockModel { fill: Fill::Partial, ..s0.blocks[s0.position->Some_0 as int] },
                ));
            }
            Ok(None)
        },
        ExpressionKind::Add(left, right) => {
            proof {
                assert(decreases_to!(*expression => expression.kind));
            }
            assert(expression@.kind->Add_0 == (**left)@ && expression@.kind->Add_1 == (**right)@);
            let left = match emit_expression(left, parameters, function, module, function_ids, write_id, data_ids, pointer, Ghost(t), Ghost(types), Ghost(sigs)) {
                Ok(v) => v,
                Err(e) => {
                    return Err(e);
                },
            };
            let ghost s1 = builder_model(*function);
            let left = match require_value(left, "left operand of `+`") {
                Ok(v) => v,
                Err(e) => {
                    return Err(e);
                },
            };
            let right = match emit_expression(right, parameters, function, module, function_ids, write_id, data_ids, pointer, Ghost(t), Ghost(types), Ghost(sigs)) {
                Ok(v) => v,
                Err(e) => {
                    return Err(e);
                },
            };
            let ghost s2 = builder_model(*function);
            let right = match require_value(right, "right operand of `+`") {
                Ok(v) => v,
                Err(e) => {
                    return Err(e);
                },
            };
            let (sum, overflow) = ins_sadd_overflow(function, left, right);
            ins_trapnz(function, overflow, TrapKind::IntegerOverflow);
            proof {
                let a = emission(*expression@.kind->Add_0, ps, t, s0.values)->Ok_0;
                let b = emission(*expression@.kind->Add_1, ps, t, a.next)->Ok_0;
                lemma_continued_trans(s0, s1, s2, a.code, b.code, a.next, b.next);
                let s = builder_model(*function);
                assert(s.code =~= s0.code + (a.code + b.code + add_code(left, right, b.next)));
                assert(s.blocks =~= s0.blocks.update(
                    s0.position->Some_0 as int,
                    BlockModel { fill: Fill::Partial, ..s0.blocks[s0.position->Some_0 as int] },
                ));
            }
            Ok(Some(sum))
        },
        ExpressionKind::Call { function: callee, arguments } => {
            let ghost es = expression@.kind->Call_1;
            let ghost f = *callee as int;
            let mut values: Vec<u32> = Vec::new();
            let ghost mut done: Seq<Instruction> = Seq::empty();
            proof {
                lemma_continued_same(s0);
            }
            let mut k: usize = 0;
            while k < arguments.len()
                invariant
                    expression.kind == (ExpressionKind::Call { function: *callee, arguments: *arguments }),
                    es == expression@.kind->Call_1,
                    f == *callee as int,
                    es.len() == arguments@.len(),
                    forall|i: int| 0 <= i < es.len() ==> #[trigger] es[i] == arguments@[i]@,
                    ps == parameters@,
                    t.functions == function_ids@,
                    t.write == write_id,
                    t.data == data_ids@,
                    t.pointer == pointer,
                    module_model(*module) == m0,
                    m0 == module_model(*old(module)),
                    target_ready(t, m0, sigs, data_ids@.len()),
                    well_typed(expression@, types, sigs, data_ids@.len()),
                    s0 == builder_model(*old(function)),
                    insertable(s0),
                    room_for(s0, demand(expression@, sigs)),
                    demand(expression@, sigs) == plus(demands(es, 0, sigs), Demand { values: call_results(sigs, f), code: 1, references: 1 }),
                    k <= arguments@.len(),
                    emission_arguments(es, 0, ps, t, Emission { code: Seq::empty(), value: None, values: Seq::empty(), next: s0.values })
                        == emission_arguments(es, k as int, ps, t, Emission { code: done, value: None, values: values@, next: builder_model(*function).values }),
                    continued(s0, builder_model(*function), done, builder_model(*function).values),
                    s0.values <= builder_model(*function).values,
                    insertable(builder_model(*function)),
                    all_below(ps, builder_model(*function).values),
                    all_below(values@, builder_model(*function).values),
                    balanced(s0, builder_model(*function), demands(es, k as int, sigs), demands(es, 0, sigs)),
                decreases arguments@.len() - k,
            {
                proof {
                    assert(decreases_to!(*expression => expression.kind));
                    assert(decreases_to!(expression.kind => *arguments));
                    assert(decreases_to!(*arguments => arguments@));
                    assert(decreases_to!(arguments@ => arguments@[k as int]));
                    assert(es[k as int] == arguments@[k as int]@);
                    assert(demands(es, k as int, sigs) == plus(demand(es[k as int], sigs), demands(es, k as int + 1, sigs)));
                }
                let ghost before = builder_model(*function);
                let value = match emit_expression(&arguments[k], parameters, function, module, function_ids, write_id, data_ids, pointer, Ghost(t), Ghost(types), Ghost(sigs)) {
                    Ok(v) => v,
                    Err(e) => {
                        return Err(e);
                    },
                };
                let value = match require_value(value, "function argument") {
                    Ok(v) => v,
                    Err(e) => {
                        return Err(e);
                    },
                };
                proof {
                    let x = emission(es[k as int], ps, t, before.values)->Ok_0;
                    lemma_continued_trans(s0, before, builder_model(*function), done, x.code, before.values, x.next);
                    done = done + x.code;
                }
                values.push(value);
                k += 1;
            }
            let callee_ref = declare_func_in_func(module, function_ids[*callee], function);
            let call = ins_call(function, callee_ref, &values);
            proof {
                let s = builder_model(*function);
                let a = emission_arguments(es, 0, ps, t, Emission { code: Seq::empty(), value: None, values: Seq::empty(), next: s0.values })->Ok_0;
                assert(s.code =~= s0.code + a.code.push(Instruction::Call { callee: t.functions[f], arguments: a.values, results: fresh_values(a.next, t.results[f]) }));
                assert(s.blocks =~= s0.blocks.update(
                    s0.position->Some_0 as int,
                    BlockModel { fill: Fill::Partial, ..s0.blocks[s0.position->Some_0 as int] },
                ));
            }
            assert(Type::Unit@ == Ty::Unit);
            if expression.ty.same(&Type::Unit) {
                Ok(None)
            } else {
                let results = inst_results(function, call);
                Ok(Some(results[0]))
            }
        },
    }
}

/// Whether a program stays within what Cranelift can number (`fits`), checked on
/// the program.
pub fn fits_code_generation(program: &Program) -> (r: bool)
    ensures
        r == fits(program@),
{
    let ghost p = program@;
    if program.functions.len() >= 0xffff_ffff || program.strings.len() > 0xffff_ffff {
        return false;
    }
    let mut k: usize = 0;
    while k < program.functions.len()
        invariant
            p == program@,
            p.functions.len() < u32::MAX,
            k <= p.functions.len(),
            forall|j: int| 0 <= j < k ==> #[trigger] function_fits(p, j),
        decreases p.functions.len() - k,
    {
        assert(p.functions[k as int] == program.functions@[k as int]@);
        assert(p.functions[k as int].parameters.len() == program.functions@[k as int].parameters@.len());
        let d = demand_of(&program.functions[k].body, program);
        let main = k == program.main;
        let parameters: u64 = if main {
            2
        } else {
            program.functions[k].parameters.len() as u64
        };
        let extra: u64 = if main {
            1
        } else {
            0
        };
        let tail: u64 = if main {
            2
        } else {
            1
        };
        if parameters > 0x1_0000 || parameters + d.0 + extra > 0xffff_ffff || d.1 + tail > 0xffff_ffff || d.2 > 0xffff_ffff {
            assert(!function_fits(p, k as int));
            return false;
        }
        assert(function_fits(p, k as int));
        k += 1;
    }
    true
}

/// Builds program function `index` with `function`: an entry block that takes the
/// native parameters, the code of the body, and the return.
#[verifier::rlimit(60)]
fn emit_function(
    function: &mut FunctionBuilder<'_>,
    program: &Program,
    index: usize,
    module: &mut ObjectModule,
    function_ids: &Vec<u32>,
    write_id: u32,
    data_ids: &Vec<(u32, usize)>,
    pointer: NativeKind,
    Ghost(t): Ghost<Target>,
    Ghost(sigs): Ghost<Seq<Signature>>,
) -> (r: Result<(), Error>)
    requires
        well_formed(program@),
        fits(program@),
        index < program@.functions.len(),
        sigs == signatures(program@.functions),
        t.functions == function_ids@,
        t.write == write_id,
        t.data == data_ids@,
        t.pointer == pointer,
        data_ids@.len() == program@.strings.len(),
        target_ready(t, module_model(*old(module)), sigs, data_ids@.len()),
        builder_model(*old(function)).signature == function_signature(program@, index as int, pointer),
        builder_model(*old(function)).blocks.len() == 0,
        builder_model(*old(function)).position is None,
        builder_model(*old(function)).values == 0,
        builder_model(*old(function)).code.len() == 0,
        builder_model(*old(function)).callees.len() == 0,
        builder_model(*old(function)).globals.len() == 0,
    ensures
        module_model(*final(module)) == module_model(*old(module)),
        match body_error(program@, index as int) {
            Some(m) => r matches Err(e) && e@ == m,
            None => {
                &&& r is Ok
                &&& builder_model(*final(function)).code == function_code(program@, index as int, t)
                &&& builder_model(*final(function)).destination == builder_model(*old(function)).destination
                &&& forall|b: int|
                    0 <= b < builder_model(*final(function)).blocks.len() && (#[trigger] builder_model(*final(function)).blocks[b]).fill
                        != Fill::Empty ==> builder_model(*final(function)).blocks[b].sealed && builder_model(*final(function)).blocks[b].fill
                        == Fill::Filled
            },
        },
{
    let ghost p = program@;
    let ghost f = p.functions[index as int];
    assert(f == program.functions@[index as int]@);
    assert(function_fits(p, index as int));
    let entry = create_block(function);
    append_function_parameters(function, entry);
    switch_to_block(function, entry);
    seal_block(function, entry);
    let parameters = if index == program.main {
        Vec::new()
    } else {
        block_params(function, entry)
    };
    let ghost n = if index == program.main { 0nat } else { f.parameters.len() };
    assert(parameters@.len() == n);
    let ghost start = builder_model(*function);
    proof {
        lemma_emission_outcome(f.body, parameters@, t, start.values);
        assert(start.values == native_parameter_count(p, index as int));
        if index == program.main {
            assert(parameters@ =~= Seq::<u32>::empty());
        } else {
            assert(parameters@ =~= fresh_values(0, native_parameter_count(p, index as int)));
        }
    }
    let value = match emit_expression(
        &program.functions[index].body,
        &parameters,
        function,
        module,
        function_ids,
        write_id,
        data_ids,
        pointer,
        Ghost(t),
        Ghost(f.parameters),
        Ghost(sigs),
    ) {
        Ok(v) => v,
        Err(e) => {
            return Err(e);
        },
    };
    let ghost em = emission(f.body, parameters@, t, start.values)->Ok_0;
    let ghost mid = builder_model(*function);
    assert(mid.code =~= em.code);
    assert(Type::Unit@ == Ty::Unit);
    if index == program.main {
        let exit_code = match require_value(value, "main body") {
            Ok(v) => v,
            Err(e) => {
                return Err(e);
            },
        };
        let exit_code = ins_ireduce(function, NativeKind::I32, exit_code);
        let values = vec![exit_code];
        assert(values@ =~= seq![exit_code]);
        ins_return(function, &values);
        assert(builder_model(*function).code =~= function_code(p, index as int, t));
    } else if program.functions[index].return_type.same(&Type::Unit) {
        let values: Vec<u32> = Vec::new();
        assert(values@ =~= Seq::<u32>::empty());
        ins_return(function, &values);
        assert(builder_model(*function).code =~= function_code(p, index as int, t));
    } else {
        let description = join3("function `", program.functions[index].symbol.as_str(), "` body");
        let value = match require_value(value, description.as_str()) {
            Ok(v) => v,
            Err(e) => {
                return Err(e);
            },
        };
        let values = vec![value];
        assert(values@ =~= seq![value]);
        ins_return(function, &values);
        assert(builder_model(*function).code =~= function_code(p, index as int, t));
    }
    Ok(())
}

/// Builds the object module for a checked program: `write` imported, one data object
/// per string holding its bytes, one function per program function (the entry
/// `main` exported with the C `main` signature and the others local), each defined
/// from the code of its body. When the program's symbols are distinct, the module is
/// exactly that.
#[verifier::rlimit(100)]
pub fn build_module(program: &Program) -> (r: Result<ObjectModule, Error>)
    requires
        well_formed(program@),
        fits(program@),
    ensures
        generated(program@, r),
        r matches Ok(m) ==> {
            &&& complete(module_model(m))
            &&& distinct_symbols(program@) ==> {
                &&& module_model(m).functions == expected_functions(program@, pointer_kind_of(module_model(m).pointer_bits), program@.functions.len() as int)
                &&& module_model(m).data == expected_data(program@)
            }
        },
{
    let ghost p = program@;
    let ghost sigs = signatures(p.functions);
    let mut flags = flag_builder();
    match set_flag(&mut flags, "is_pic", "true") {
        Ok(_) => {},
        Err(e) => {
            let reason = set_error_text(&e);
            proof {
                lemma_prefix(failure_prefixes()[0], reason@);
            }
            return Err(failure("could not configure Cranelift: ", reason.as_str()));
        },
    }
    let target = match native_target() {
        Ok(t) => t,
        Err(reason) => {
            proof {
                lemma_prefix(failure_prefixes()[1], reason@);
            }
            return Err(failure("unsupported compilation host: ", reason));
        },
    };
    let machine = match finish_target(&target, flags) {
        Ok(m) => m,
        Err(e) => {
            let reason = codegen_error_text(&e);
            proof {
                lemma_prefix(failure_prefixes()[2], reason@);
            }
            return Err(failure("could not create the native backend: ", reason.as_str()));
        },
    };
    let builder = match object_builder(machine, "kal-program") {
        Ok(b) => b,
        Err(e) => {
            let reason = module_error_text(&e);
            proof {
                lemma_prefix(failure_prefixes()[3], reason@);
            }
            return Err(failure("could not create an object module: ", reason.as_str()));
        },
    };
    let mut module = object_module(builder);
    let bits = pointer_bits(&module);
    let pointer = pointer_kind(bits);

    let mut write_signature = make_signature(&module);
    add_parameter(&mut write_signature, NativeKind::I32);
    add_parameter(&mut write_signature, pointer);
    add_parameter(&mut write_signature, pointer);
    add_return(&mut write_signature, pointer);
    assert(signature_model(write_signature).parameters =~= write_signature_model(pointer).parameters);
    assert(signature_model(write_signature).returns =~= write_signature_model(pointer).returns);
    let write_id = match declare_function(&mut module, "write", Linkage::Import, &write_signature) {
        Ok(id) => id,
        Err(e) => {
            let reason = module_error_text(&e);
            proof {
                lemma_prefix(failure_prefixes()[4], reason@);
            }
            return Err(failure("could not declare `write`: ", reason.as_str()));
        },
    };
    proof {
        let m = module_model(module);
        assert(m.functions =~= expected_functions(p, pointer, 0).take(1));
    }

    let mut data_ids: Vec<(u32, usize)> = Vec::new();
    let mut index: usize = 0;
    while index < program.strings.len()
        invariant
            p == program@,
            well_formed(p),
            fits(p),
            sigs == signatures(p.functions),
            index <= p.strings.len(),
            pointer == pointer_kind_of(module_model(module).pointer_bits),
            write_id == 0,
            module_model(module).functions =~= expected_functions(p, pointer, 0).take(1),
            module_model(module).data.len() <= index,
            data_ids@.len() == index,
            forall|i: int| 0 <= i < index ==> (#[trigger] data_ids@[i]).0 < module_model(module).data.len() && data_ids@[i].1 == p.strings[i].len(),
            forall|i: int| 0 <= i < module_model(module).data.len() ==> !(#[trigger] module_model(module).data[i]).tls,
            forall|i: int| 0 <= i < module_model(module).data.len() && definable(#[trigger] module_model(module).data[i].linkage) ==> module_model(module).data[i].contents is Some,
            distinct_symbols(p) ==> module_model(module).data == expected_data(p).take(index as int)
                && forall|i: int| 0 <= i < index ==> (#[trigger] data_ids@[i]).0 == i,
        decreases p.strings.len() - index,
    {
        let number = decimal(index);
        let name = join2("kal.string.", number.as_str());
        proof {
            reveal_strlit("kal.string.");
        }
        assert(name@ == string_name(index as nat));
        let ghost before = module_model(module);
        proof {
            if distinct_symbols(p) {
                assert forall|i: int| 0 <= i < before.data.len() implies (#[trigger] before.data[i]).name != name@ by {
                    assert(before.data[i] == expected_data(p)[i]);
                    if before.data[i].name == name@ {
                        assert("kal.string."@ + decimal_text(i as nat) == "kal.string."@ + decimal_text(index as nat));
                        assert(decimal_text(i as nat) =~= ("kal.string."@ + decimal_text(i as nat)).subrange(11, ("kal.string."@ + decimal_text(i as nat)).len() as int));
                        assert(decimal_text(index as nat) =~= ("kal.string."@ + decimal_text(index as nat)).subrange(11, ("kal.string."@ + decimal_text(index as nat)).len() as int));
                        lemma_decimal_injective(i as nat, index as nat);
                    }
                }
            }
        }
        let data_id = match declare_data(&mut module, name.as_str(), Linkage::Local, false, false) {
            Ok(id) => id,
            Err(e) => {
                let reason = module_error_text(&e);
                proof {
                    lemma_prefix(failure_prefixes()[5], reason@);
                }
                return Err(failure("could not declare string data: ", reason.as_str()));
            },
        };
        let mut description = data_description();
        define_bytes(&mut description, program.strings[index].clone());
        match define_data(&mut module, data_id, &description) {
            Ok(_) => {},
            Err(e) => {
                let reason = module_error_text(&e);
                proof {
                    lemma_prefix(failure_prefixes()[6], reason@);
                }
                return Err(failure("could not define string data: ", reason.as_str()));
            },
        }
        proof {
            let after = module_model(module);
            if distinct_symbols(p) {
                assert(data_named(before.data, name@) is None);
                assert(after.data =~= expected_data(p).take(index as int + 1));
            }
        }
        data_ids.push((data_id, program.strings[index].len()));
        index += 1;
    }

    let mut native_signatures: Vec<NativeSignature> = Vec::new();
    let mut function_ids: Vec<u32> = Vec::new();
    let mut index: usize = 0;
    while index < program.functions.len()
        invariant
            p == program@,
            well_formed(p),
            fits(p),
            sigs == signatures(p.functions),
            index <= p.functions.len(),
            pointer == pointer_kind_of(module_model(module).pointer_bits),
            write_id < module_model(module).functions.len(),
            module_model(module).functions[write_id as int].signature == write_signature_model(pointer),
            data_ids@.len() == p.strings.len(),
            forall|i: int| 0 <= i < p.strings.len() ==> (#[trigger] data_ids@[i]).0 < module_model(module).data.len() && data_ids@[i].1 == p.strings[i].len(),
            forall|i: int| 0 <= i < module_model(module).data.len() && definable(#[trigger] module_model(module).data[i].linkage) ==> module_model(module).data[i].contents is Some,
            native_signatures@.len() == index,
            function_ids@.len() == index,
            module_model(module).functions.len() <= index + 1,
            forall|k: int|
                0 <= k < index ==> {
                    &&& (#[trigger] function_ids@[k]) < module_model(module).functions.len()
                    &&& module_model(module).functions[function_ids@[k] as int].signature == function_signature(p, k, pointer)
                    &&& signature_model(native_signatures@[k]) == function_signature(p, k, pointer)
                },
            forall|j: int|
                0 <= j < module_model(module).functions.len() && definable(#[trigger] module_model(module).functions[j].linkage)
                    ==> exists|k: int| 0 <= k < index && function_ids@[k] == j,
            forall|j: int| 0 <= j < module_model(module).functions.len() ==> !(#[trigger] module_model(module).functions[j]).defined,
            signatures_error_from(p.functions, p.main, 0) == signatures_error_from(p.functions, p.main, index as int),
            distinct_symbols(p) ==> {
                &&& module_model(module).functions =~= expected_functions(p, pointer, 0).take(index + 1)
                &&& module_model(module).data =~= expected_data(p)
                &&& write_id == 0
                &&& forall|k: int| 0 <= k < index ==> (#[trigger] function_ids@[k]) == k + 1
                &&& forall|i: int| 0 <= i < p.strings.len() ==> (#[trigger] data_ids@[i]).0 == i
            },
        decreases p.functions.len() - index,
    {
        let function = &program.functions[index];
        assert(p.functions[index as int] == function@);
        let mut signature = make_signature(&module);
        if index == program.main {
            add_parameter(&mut signature, NativeKind::I32);
            add_parameter(&mut signature, pointer);
            add_return(&mut signature, NativeKind::I32);
        } else {
            let mut k: usize = 0;
            while k < function.parameters.len()
                invariant
                    p == program@,
                    fits(p),
                    0 <= index < p.functions.len(),
                    index as int != p.main,
                    p.functions[index as int] == function@,
                    signatures_error_from(p.functions, p.main, 0) == signatures_error_from(p.functions, p.main, index as int),
                    k <= function.parameters@.len(),
                    function@.parameters.len() == function.parameters@.len(),
                    forall|j: int| 0 <= j < function.parameters@.len() ==> function@.parameters[j] == #[trigger] function.parameters@[j]@,
                    parameters_error(function@.parameters, 0) == parameters_error(function@.parameters, k as int),
                    signature_model(signature).parameters =~= Seq::new(k as nat, |j: int| native_kind_of(function@.parameters[j], pointer)),
                    signature_model(signature).returns.len() == 0,
                decreases function.parameters@.len() - k,
            {
                let ty = match codegen_type(&function.parameters[k], pointer) {
                    Ok(t) => t,
                    Err(e) => {
                        proof {
                            assert(parameters_error(function@.parameters, k as int) == Some(e@));
                            assert(signature_error(p.functions[index as int]) == Some(e@));
                            assert(signatures_error_from(p.functions, p.main, index as int) == Some(e@));
                        }
                        return Err(e);
                    },
                };
                add_parameter(&mut signature, ty);
                k += 1;
            }
            assert(Type::Unit@ == Ty::Unit);
            if !function.return_type.same(&Type::Unit) {
                let ty = match codegen_type(&function.return_type, pointer) {
                    Ok(t) => t,
                    Err(e) => {
                        proof {
                            assert(parameters_error(function@.parameters, 0) is None);
                            assert(function@.return_type == function.return_type@);
                            assert(function.return_type@ != Ty::Unit);
                            assert(native_type_error(function.return_type@) == Some(e@));
                            assert(signature_error(function@) == Some(e@));
                            assert(signature_error(p.functions[index as int]) == Some(e@));
                            assert(signatures_error_from(p.functions, p.main, index as int) == Some(e@));
                        }
                        return Err(e);
                    },
                };
                add_return(&mut signature, ty);
            }
        }
        assert(signature_model(signature).parameters =~= function_signature(p, index as int, pointer).parameters);
        assert(signature_model(signature).returns =~= function_signature(p, index as int, pointer).returns);
        assert(signature_model(signature) == function_signature(p, index as int, pointer));
        let linkage = if index == program.main {
            Linkage::Export
        } else {
            Linkage::Local
        };
        let ghost before = module_model(module);
        proof {
            if distinct_symbols(p) {
                assert forall|j: int| 0 <= j < before.functions.len() implies (#[trigger] before.functions[j]).name != function@.symbol by {
                    if j > 0 {
                        assert(before.functions[j].name == p.functions[j - 1].symbol);
                    }
                }
                assert forall|i: int| 0 <= i < before.data.len() implies (#[trigger] before.data[i]).name != function@.symbol by {
                    assert(before.data[i].name == string_name(i as nat));
                }
            }
        }
        let function_id = match declare_function(&mut module, function.symbol.as_str(), linkage, &signature) {
            Ok(id) => id,
            Err(e) => {
                let text = module_error_text(&e);
                let message = join5("could not declare function `", function.symbol.as_str(), "`: ", text.as_str(), "");
                proof {
                    let start = failure_prefixes()[7] + p.functions[index as int].symbol + "`: "@;
                    assert(message@ =~= start + (text@ + ""@));
                    lemma_prefix(start, text@ + ""@);
                }
                return Err(Error::new(message));
            },
        };
        proof {
            let after = module_model(module);
            if distinct_symbols(p) {
                assert(function_named(before.functions, function@.symbol) is None);
                assert(after.functions =~= expected_functions(p, pointer, 0).take(index + 2));
            }
            assert forall|j: int|
                0 <= j < after.functions.len() && definable(#[trigger] after.functions[j].linkage)
                implies exists|k: int| 0 <= k < index + 1 && function_ids@.push(function_id)[k] == j by {
                if j == function_id {
                    assert(function_ids@.push(function_id)[index as int] == j);
                } else {
                    assert(after.functions[j].linkage == before.functions[j].linkage);
                    let k = choose|k: int| 0 <= k < index && function_ids@[k] == j;
                    assert(function_ids@.push(function_id)[k] == j);
                }
            }
        }
        native_signatures.push(signature);
        function_ids.push(function_id);
        index += 1;
    }

    let ghost t = Target {
        functions: function_ids@,
        results: Seq::new(sigs.len(), |f: int| if sigs[f].return_type == Ty::Unit { 0nat } else { 1nat }),
        write: write_id,
        write_results: 1,
        data: data_ids@,
        pointer,
    };
    let mut index: usize = 0;
    while index < program.functions.len()
        invariant
            p == program@,
            well_formed(p),
            fits(p),
            sigs == signatures(p.functions),
            index <= p.functions.len(),
            pointer == pointer_kind_of(module_model(module).pointer_bits),
            t.functions == function_ids@,
            t.write == write_id,
            t.data == data_ids@,
            t.pointer == pointer,
            t.write_results == 1,
            t.results == Seq::new(sigs.len(), |f: int| if sigs[f].return_type == Ty::Unit { 0nat } else { 1nat }),
            write_id < module_model(module).functions.len(),
            module_model(module).functions[write_id as int].signature == write_signature_model(pointer),
            data_ids@.len() == p.strings.len(),
            forall|i: int| 0 <= i < p.strings.len() ==> (#[trigger] data_ids@[i]).0 < module_model(module).data.len() && data_ids@[i].1 == p.strings[i].len(),
            forall|i: int| 0 <= i < module_model(module).data.len() && definable(#[trigger] module_model(module).data[i].linkage) ==> module_model(module).data[i].contents is Some,
            native_signatures@.len() == p.functions.len(),
            function_ids@.len() == p.functions.len(),
            forall|k: int|
                0 <= k < p.functions.len() ==> {
                    &&& (#[trigger] function_ids@[k]) < module_model(module).functions.len()
                    &&& module_model(module).functions[function_ids@[k] as int].signature == function_signature(p, k, pointer)
                    &&& signature_model(native_signatures@[k]) == function_signature(p, k, pointer)
                },
            forall|j: int|
                0 <= j < module_model(module).functions.len() && definable(#[trigger] module_model(module).functions[j].linkage)
                    ==> exists|k: int| 0 <= k < p.functions.len() && function_ids@[k] == j,
            forall|k: int| 0 <= k < index ==> module_model(module).functions[(#[trigger] function_ids@[k]) as int].defined,
            signatures_error_from(p.functions, p.main, 0) is None,
            bodies_error_from(p, 0) == bodies_error_from(p, index as int),
            distinct_symbols(p) ==> {
                &&& module_model(module).functions =~= expected_functions(p, pointer, index as int)
                &&& module_model(module).data =~= expected_data(p)
                &&& write_id == 0
                &&& forall|k: int| 0 <= k < p.functions.len() ==> (#[trigger] function_ids@[k]) == k + 1
                &&& forall|i: int| 0 <= i < p.strings.len() ==> (#[trigger] data_ids@[i]).0 == i
            },
        decreases p.functions.len() - index,
    {
        let program_function = &program.functions[index];
        let ghost f = p.functions[index as int];
        assert(f == program_function@);
        proof {
            assert(target_ready(t, module_model(module), sigs, data_ids@.len()));
            assert(function_ids@[index as int] < module_model(module).functions.len());
            assert(function_fits(p, index as int));
        }
        let mut context = make_context(&module);
        set_function_signature(&mut context, clone_signature(&native_signatures[index]));
        let mut function_context = builder_context();
        let mut builder = Some(function_builder(&mut context, &mut function_context));
        let ghost destination = builder_model(builder->Some_0).destination;
        let built = match &mut builder {
            Some(function) => emit_function(
                function,
                program,
                index,
                &mut module,
                &function_ids,
                write_id,
                &data_ids,
                pointer,
                Ghost(t),
                Ghost(sigs),
            ),
            None => Ok(()),
        };
        match built {
            Ok(_) => {},
            Err(e) => {
                return Err(e);
            },
        }
        proof {
            assert(body_error(p, index as int) is None);
            assert(builder_model(builder->Some_0).destination == destination);
            assert(builder_model(builder->Some_0).code == function_code(p, index as int, t));
        }
        finalize(&mut builder);
        let ghost before = module_model(module);
        match define_function(&mut module, function_ids[index], &mut context) {
            Ok(_) => {},
            Err(e) => {
                let text = module_error_text(&e);
                let message = join5("could not compile function `", program_function.symbol.as_str(), "`: ", text.as_str(), "");
                proof {
                    let start = failure_prefixes()[8] + p.functions[index as int].symbol + "`: "@;
                    assert(message@ =~= start + (text@ + ""@));
                    lemma_prefix(start, text@ + ""@);
                }
                return Err(Error::new(message));
            },
        }
        clear_context(&module, &mut context);
        proof {
            let after = module_model(module);
            if distinct_symbols(p) {
                assert(t.functions =~= canonical_target(p, pointer).functions);
                assert(t.data =~= canonical_target(p, pointer).data);
                assert(t.results =~= canonical_target(p, pointer).results);
                assert(t == canonical_target(p, pointer));
                assert(after.functions =~= expected_functions(p, pointer, index as int + 1));
            }
        }
        index += 1;
    }
    Ok(module)
}

/// Compiles a checked program into the bytes of a native object file: the module of
/// `build_module` (whose contract fixes what it holds), finished and written out.
/// The program must stay within what Cranelift numbers (`fits`, which
/// `fits_code_generation` decides).
pub fn emit_object(program: &Program) -> (r: Result<Vec<u8>, Error>)
    requires
        well_formed(program@),
        fits(program@),
    ensures
        generated(program@, r),
{
    let module = match build_module(program) {
        Ok(m) => m,
        Err(e) => {
            return Err(e);
        },
    };
    let product = finish_module(module);
    match emit_product(product) {
        Ok(bytes) => Ok(bytes),
        Err(e) => {
            let reason = write_error_text(&e);
            proof {
                lemma_prefix(failure_prefixes()[9], reason@);
            }
            Err(failure("could not emit the object file: ", reason.as_str()))
        },
    }
}

} // verus!
