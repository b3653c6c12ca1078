//! Kal: a statically typed Lisp compiled to native code.
//!
//! The reader turns source text into s-expressions, the checker turns them into
//! a typed program, and the code generator turns that program into an object file.
//! Reading files and running the system linker are left to the caller.

mod text;
pub mod syntax;
pub mod types;
pub mod declarations;
pub mod program;
pub mod checker;
pub mod codegen;

use vstd::prelude::*;

use crate::checker::{all_lowered, analyze, checked, lower_program, lowering_ends, program_functions};
use crate::codegen::{fits, generated};
use crate::program::ProgramModel;
use crate::declarations::views;
use crate::syntax::{forms, parse, read_source};
use crate::text::join2;

verus! {

/// A compiler diagnostic: the message that the `kal` command prints.
#[derive(Debug)]
pub struct Error {
    message: String,
}

impl View for Error {
    type V = Seq<char>;

    closed spec fn view(&self) -> Seq<char> {
        self.message@
    }
}

impl Error {
    /// Builds a diagnostic that carries `message`.
    pub fn new(message: String) -> (error: Error)
        ensures
            error@ == message@,
    {
        Error { message }
    }

    /// The text of the diagnostic.
    pub fn message(&self) -> (message: String)
        ensures
            message@ == self@,
    {
        self.message.clone()
    }
}

/// Whether the program that `source` is checked into, if it is, stays within what
/// Cranelift can number (`fits`).
pub open spec fn source_fits(source: Seq<char>) -> bool {
    match read_source(source) {
        Ok(fs) => match checked(fs) {
            Ok((st, i)) => match lower_program(st) {
                Ok(low) => fits(
                    ProgramModel { strings: low.strings, functions: program_functions(low.pending), main: st.env.concrete[i].function },
                ),
                Err(_) => true,
            },
            Err(_) => true,
        },
        Err(_) => true,
    }
}

/// Compiles Kal source text into the bytes of a native object file: the source is
/// read, checked and lowered, and the program is compiled with Cranelift. Linking the
/// object into an executable is left to the caller.
///
/// The caller guarantees that specialization ends (`lowering_ends`) and that the
/// lowered program stays within what Cranelift numbers (`source_fits`).
pub fn compile(source: &str) -> (r: Result<Vec<u8>, Error>)
    requires
        read_source(source@) matches Ok(fs) ==> (checked(fs) matches Ok((st, i)) ==> lowering_ends(st)),
        source_fits(source@),
    ensures
        match read_source(source@) {
            Err(m) => r matches Err(e) && e@ == m,
            Ok(fs) => match checked(fs) {
                Err(m) => r matches Err(e) && e@ == m,
                Ok((st, i)) => match lower_program(st) {
                    Err(m) => r matches Err(e) && e@ == m,
                    Ok(low) => all_lowered(low.pending) && generated(
                        ProgramModel { strings: low.strings, functions: program_functions(low.pending), main: st.env.concrete[i].function },
                        r,
                    ),
                },
            },
        },
{
    let expressions = match parse(source) {
        Ok(v) => v,
        Err(e) => {
            return Err(e);
        },
    };
    assert(views(expressions@) =~= forms(expressions@));
    let program = match analyze(expressions) {
        Ok(p) => p,
        Err(e) => {
            return Err(e);
        },
    };
    codegen::emit_object(&program)
}

/// What `Path::file_stem` gives for the path `input`, as text.
pub uninterp spec fn path_file_stem(input: Seq<char>) -> Option<Seq<char>>;

/// Calls `Path::file_stem` on the path `input`; a stem of a path made from text is
/// text, so the conversion back loses nothing.
#[verifier::external_body]
fn file_stem(input: &str) -> (r: Option<String>)
    ensures
        match r {
            Some(s) => path_file_stem(input@) == Some(s@),
            None => path_file_stem(input@) is None,
        },
{
    match std::path::Path::new(input).file_stem() {
        Some(stem) => Some(stem.to_string_lossy().into_owned()),
        None => None,
    }
}

/// The output path for the input path `input` whose file stem is `stem`: the stem
/// itself, in the current directory; an input without a (non-empty) stem is refused.
pub fn output_path_from_stem(input: &str, stem: Option<String>) -> (r: Result<String, Error>)
    ensures
        match stem {
            Some(s) => if s@.len() > 0 {
                r matches Ok(p) && p@ == s@
            } else {
                r matches Err(e) && e@ == input@ + " has no file name"@
            },
            None => r matches Err(e) && e@ == input@ + " has no file name"@,
        },
{
    match stem {
        Some(s) => {
            if s.as_str().unicode_len() > 0 {
                Ok(s)
            } else {
                Err(Error::new(join2(input, " has no file name")))
            }
        },
        None => Err(Error::new(join2(input, " has no file name"))),
    }
}

/// The executable that `kal build` writes when no `-o` is given: the input's file
/// stem, in the current directory.
pub fn default_output_path(input: &str) -> (r: Result<String, Error>)
    ensures
        match path_file_stem(input@) {
            Some(s) => if s.len() > 0 {
                r matches Ok(p) && p@ == s
            } else {
                r matches Err(e) && e@ == input@ + " has no file name"@
            },
            None => r matches Err(e) && e@ == input@ + " has no file name"@,
        },
{
    output_path_from_stem(input, file_stem(input))
}

} // verus!
