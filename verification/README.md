# Kal

Kal is an explicitly and statically typed Lisp that compiles to native
executables through Cranelift. This crate is the compiler, written in Verus:
every stage states what it computes in `requires`/`ensures` contracts over
mathematical models, and Verus proves the code against them.

```lisp
(defn main ((args (Array String))) -> Int
  (do
    (print "Hello, world!")
    0))
```

## Layout

- `src/syntax.rs` — the reader: characters to tokens (`tokenize`), tokens to
  s-expressions (`parse`). Its contracts are the specification functions `lex`,
  `parse_forms` and `read_source`.
- `src/declarations.rs` — top-level forms to trait, implementation and function
  declarations (`parse_declarations` and the `parse_*` functions).
- `src/types.rs` — Kal types, their text, substitution of type parameters,
  replacement of `Self`, unification and matching.
- `src/checker.rs` — registration of declarations, checking of generic
  functions against their trait requirements, and lowering of function bodies
  into a typed program, specializing generic functions per type. The result of
  `analyze` is pinned by the specification functions `checked` and
  `lower_program`, and every program it returns is `well_formed`: each body is
  well typed and has its function's return type, all signatures are concrete,
  and `main` has the entry signature.
- `src/program.rs` — the typed program and the `well_formed` predicate that code
  generation relies on.
- `src/codegen.rs` — the typed program to a native object file. Each Cranelift
  call goes through a small wrapper whose contract Verus trusts; the contracts
  speak of a model of what Cranelift holds: the declarations and data of the
  object module, the native signatures, and the blocks, values and instructions
  of the function being built. Against that model Verus proves that no wrapper
  is called where Cranelift would panic, which declarations, string data and
  function code the module receives (`build_module`), which instructions each
  expression hands to the function builder (`emission`: for instance, every `+`
  is a signed add followed by a trap on its overflow flag, and a `do` emits its
  expressions in order), and which diagnostic stops code generation
  (`codegen_error`). A failure that Cranelift itself reports is admitted only
  at a step that runs before that diagnostic would be reached
  (`failure_before_diagnostic`). Code generation requires that the program stays
  within what Cranelift numbers with 32-bit entity indices (`fits`, checked by
  `fits_code_generation`). What Cranelift compiles the instructions into, and
  the bytes of the object file, are Cranelift's.
- `src/lib.rs` — `compile` (source text to object bytes), `Error`, and the
  default output path.
- `app/main.rs` — the `kal build <input> [-o <output>]` command: it reads the
  source, calls `kal::compile`, and links the object with the system `cc`
  driver, moving the executable into place only when linking succeeded.
- `tests/` — tests of the library through its public interface.
