//! The errors of reading, compiling and running a program.
use vstd::prelude::*;

verus! {

/// Everything that can go wrong while reading, compiling or running a program.
#[derive(Debug)]
pub enum BrainpurrError {
    /// A `nya` (open loop) has no matching `:3`.
    TooManyNya,
    /// A `:3` (close loop) has no matching `nya`.
    TooManyColonThree,
    ParsingError(String),
    CompilingError(String),
    UserInput(String),
    Output(String),
}

/// The message shown for an error.
pub open spec fn error_message(e: BrainpurrError) -> Seq<char> {
    match e {
        BrainpurrError::TooManyNya => "found a nya without its required :3"@,
        BrainpurrError::TooManyColonThree => "found a :3 without its required nya"@,
        BrainpurrError::ParsingError(m) => "failed to parse the file: "@ + m@,
        BrainpurrError::CompilingError(m) => "failed to compile the file: "@ + m@,
        BrainpurrError::UserInput(m) => "failed to read user input: "@ + m@,
        BrainpurrError::Output(m) => "failed to output: "@ + m@,
    }
}

impl BrainpurrError {
    /// The message shown for this error.
    pub fn message(&self) -> (r: String)
        ensures
            r@ == error_message(*self),
    {
        let mut s = String::new();
        match self {
            BrainpurrError::TooManyNya => s.append("found a nya without its required :3"),
            BrainpurrError::TooManyColonThree => s.append("found a :3 without its required nya"),
            BrainpurrError::ParsingError(m) => {
                s.append("failed to parse the file: ");
                s.append(m.as_str());
            },
            BrainpurrError::CompilingError(m) => {
                s.append("failed to compile the file: ");
                s.append(m.as_str());
            },
            BrainpurrError::UserInput(m) => {
                s.append("failed to read user input: ");
                s.append(m.as_str());
            },
            BrainpurrError::Output(m) => {
                s.append("failed to output: ");
                s.append(m.as_str());
            },
        }
        s
    }
}

} // verus!
