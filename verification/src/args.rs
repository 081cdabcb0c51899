//! The settings of the tool, and the traits through which the interpreter and the C back end read them.
use vstd::prelude::*;

use std::path::PathBuf;

verus! {

#[verifier::external_type_specification]
#[verifier::external_body]
pub struct ExPathBuf(PathBuf);

/// The command line of the brainpurr tool.
pub struct Args {
    /// the path to the brainpurr file
    pub path: PathBuf,
    /// shows the array at the end of the program
    pub show_final_array: bool,
    /// interprets the file as brainfuck instead of brainpurr
    pub from_brainfuck: bool,
    /// outputs the brainpurr code instead of running it
    pub to_brainpurr: bool,
    /// outputs the code as brainfuck instead of running it
    pub to_brainfuck: bool,
    /// outputs the code as c instead of running it
    pub to_c: bool,
    /// compiles the code (requires gcc)
    pub compile: bool,
    /// the length of the array, by default unlimited for the interpreter and 67_000 for the compiler
    pub max_array_size: Option<u32>,
    /// arguments to pass to gcc when compiling the code from c to binary
    pub gcc_args: Option<String>,
    /// input method
    pub input: InputMethod,
    /// output method
    pub output: OutputMethod,
    /// exchanges the byte values of '\n' (10) and '\0' (0) on input and output
    pub newline_zero: bool,
    /// what the compiled program does when the pointer leaves the array
    pub pointer_wrap: PointerWrapMode,
}

/// How a `>:3` reads its byte.
#[derive(Debug, Clone, Copy, PartialEq, Eq, Hash, Structural)]
pub enum InputMethod {
    /// interprets the input byte per byte including the \n
    Normal,
    /// only takes the first byte from each line
    FirstCharOnly,
    /// interprets the line as a number (must be between 0 and 255 included)
    ByteAsNumber,
}

/// How a `:3c` writes its byte.
#[derive(Debug, Clone, Copy, PartialEq, Eq, Hash, Structural)]
pub enum OutputMethod {
    /// outputs each byte as a character
    Normal,
    /// outputs each byte as a number
    ByteAsNumber,
}

/// What a compiled program does when its pointer leaves the array.
#[derive(Debug, Clone, Copy, PartialEq, Eq, Hash, Structural)]
pub enum PointerWrapMode {
    /// crashes if the pointer goes under 0 or higher than the array limit size
    Crash,
    /// doesn't check for overflow/underflow
    Unsafe,
    /// in case of overflow goes back to 0 and vice-versa
    WrapAround,
    /// in case of overflow/underflow doesn't change the value
    Stick,
}

/// The settings the interpreter reads.
pub trait InterpreterArgs {
    spec fn spec_input_method(&self) -> InputMethod;

    spec fn spec_output_method(&self) -> OutputMethod;

    spec fn spec_newline_zero(&self) -> bool;

    spec fn spec_max_array_size(&self) -> Option<u32>;

    spec fn spec_pointer_wrap_mode(&self) -> PointerWrapMode;

    fn get_input_method(&self) -> (r: &InputMethod)
        ensures
            *r == self.spec_input_method(),
    ;

    fn get_output_method(&self) -> (r: &OutputMethod)
        ensures
            *r == self.spec_output_method(),
    ;

    fn get_newline_zero(&self) -> (r: bool)
        ensures
            r == self.spec_newline_zero(),
    ;

    fn get_max_array_size(&self) -> (r: Option<u32>)
        ensures
            r == self.spec_max_array_size(),
    ;

    fn get_pointer_wrap_mode(&self) -> (r: &PointerWrapMode)
        ensures
            *r == self.spec_pointer_wrap_mode(),
    ;
}

impl InterpreterArgs for Args {
    open spec fn spec_input_method(&self) -> InputMethod {
        self.input
    }

    open spec fn spec_output_method(&self) -> OutputMethod {
        self.output
    }

    open spec fn spec_newline_zero(&self) -> bool {
        self.newline_zero
    }

    open spec fn spec_max_array_size(&self) -> Option<u32> {
        self.max_array_size
    }

    open spec fn spec_pointer_wrap_mode(&self) -> PointerWrapMode {
        self.pointer_wrap
    }

    fn get_input_method(&self) -> (r: &InputMethod) {
        &self.input
    }

    fn get_output_method(&self) -> (r: &OutputMethod) {
        &self.output
    }

    fn get_newline_zero(&self) -> (r: bool) {
        self.newline_zero
    }

    fn get_max_array_size(&self) -> (r: Option<u32>) {
        self.max_array_size
    }

    fn get_pointer_wrap_mode(&self) -> (r: &PointerWrapMode) {
        &self.pointer_wrap
    }
}

/// The settings the C back end reads.
pub trait CompilerArgs {
    spec fn spec_input_method(&self) -> InputMethod;

    spec fn spec_output_method(&self) -> OutputMethod;

    spec fn spec_newline_zero(&self) -> bool;

    spec fn spec_max_array_size(&self) -> u32;

    spec fn spec_gcc_args(&self) -> Option<String>;

    spec fn spec_pointer_wrap_mode(&self) -> PointerWrapMode;

    fn get_input_method(&self) -> (r: &InputMethod)
        ensures
            *r == self.spec_input_method(),
    ;

    fn get_output_method(&self) -> (r: &OutputMethod)
        ensures
            *r == self.spec_output_method(),
    ;

    fn get_newline_zero(&self) -> (r: bool)
        ensures
            r == self.spec_newline_zero(),
    ;

    fn get_max_array_size(&self) -> (r: u32)
        ensures
            r == self.spec_max_array_size(),
    ;

    fn get_gcc_args(&self) -> (r: Option<String>)
        ensures
            r == self.spec_gcc_args(),
    ;

    fn get_pointer_wrap_mode(&self) -> (r: &PointerWrapMode)
        ensures
            *r == self.spec_pointer_wrap_mode(),
    ;
}

/// The array length of a compiled program when none is given.
pub const DEFAULT_COMPILED_ARRAY_SIZE: u32 = 67000;

impl CompilerArgs for Args {
    open spec fn spec_input_method(&self) -> InputMethod {
        self.input
    }

    open spec fn spec_output_method(&self) -> OutputMethod {
        self.output
    }

    open spec fn spec_newline_zero(&self) -> bool {
        self.newline_zero
    }

    open spec fn spec_max_array_size(&self) -> u32 {
        match self.max_array_size {
            Some(n) => n,
            None => DEFAULT_COMPILED_ARRAY_SIZE,
        }
    }

    open spec fn spec_gcc_args(&self) -> Option<String> {
        self.gcc_args
    }

    open spec fn spec_pointer_wrap_mode(&self) -> PointerWrapMode {
        self.pointer_wrap
    }

    fn get_input_method(&self) -> (r: &InputMethod) {
        &self.input
    }

    fn get_output_method(&self) -> (r: &OutputMethod) {
        &self.output
    }

    fn get_newline_zero(&self) -> (r: bool) {
        self.newline_zero
    }

    fn get_max_array_size(&self) -> (r: u32) {
        match self.max_array_size {
            Some(n) => n,
            None => DEFAULT_COMPILED_ARRAY_SIZE,
        }
    }

    fn get_gcc_args(&self) -> (r: Option<String>) {
        match &self.gcc_args {
            Some(s) => Some(s.clone()),
            None => None,
        }
    }

    fn get_pointer_wrap_mode(&self) -> (r: &PointerWrapMode) {
        &self.pointer_wrap
    }
}

} // verus!
