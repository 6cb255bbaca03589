//! The decisions of the legacy way to run a document: a script generates code
//! for the document, and the line interpreter runs that code. The caller
//! performs each action and reports what came of it.
use vstd::prelude::*;

verus! {

/// The generation script up to the path of the document.
pub const LEGACY_SCRIPT_HEAD: &'static str = r#"
import os
import sys

# Add the current directory to Python path
sys.path.insert(0, os.getcwd())

# Import the functions we need
from language.utils import parse_nature_document
from language.parser import llm_generate_function_code
from language.code_generator import generate_document_code

# Read and process the file
with open('"#;

/// The generation script after the path of the document.
pub const LEGACY_SCRIPT_TAIL: &'static str = r#"', 'r') as f:
    content = f.read()

# Parse the document
functions = parse_nature_document(content)

# Generate code for each function
for func in functions:
    func.generated_code = llm_generate_function_code(func.instructions)

# Generate the final code
generated_code = generate_document_code(functions)
print(generated_code)
"#;

/// Relies on `<[&str]>::concat`: the two texts one after the other.
#[verifier::external_body]
fn join(a: &str, b: &str) -> (r: String)
    ensures
        r@ == a@ + b@,
{
    [a, b].concat()
}

/// What the caller reports back.
#[derive(Debug)]
pub enum LegacyEvent {
    /// Nothing has run yet.
    Start,
    /// The generation script ran: the code it printed, or its error.
    Generated(Result<String, String>),
    /// The interpreter ran the generated code, or failed with this error.
    Interpreted(Result<(), String>),
}

/// Why a legacy run failed.
#[derive(Debug, PartialEq)]
pub enum LegacyError {
    /// The generation script failed.
    Generation(String),
    /// The interpreter failed on the generated code.
    Interpreter(String),
}

/// What the caller is to do next.
#[derive(Debug, PartialEq)]
pub enum LegacyAction {
    /// Run this script and capture what it prints.
    RunScript(String),
    /// Run this code with the line interpreter.
    Interpret(String),
    /// Stop with this outcome.
    Finish(Result<(), LegacyError>),
}

/// The next action of a legacy run of the document at `file_path`, given
/// what the last action gave.
pub fn run_file_legacy(file_path: &str, event: LegacyEvent) -> (a: LegacyAction)
    ensures
        match event {
            LegacyEvent::Start => match a {
                LegacyAction::RunScript(s) => s@ == LEGACY_SCRIPT_HEAD@ + file_path@
                    + LEGACY_SCRIPT_TAIL@,
                _ => false,
            },
            LegacyEvent::Generated(Ok(code)) => a == LegacyAction::Interpret(code),
            LegacyEvent::Generated(Err(e)) => a == LegacyAction::Finish(
                Err(LegacyError::Generation(e)),
            ),
            LegacyEvent::Interpreted(Ok(())) => a == LegacyAction::Finish(Ok(())),
            LegacyEvent::Interpreted(Err(e)) => a == LegacyAction::Finish(
                Err(LegacyError::Interpreter(e)),
            ),
        },
{
    match event {
        LegacyEvent::Start => {
            let head = join(LEGACY_SCRIPT_HEAD, file_path);
            LegacyAction::RunScript(join(head.as_str(), LEGACY_SCRIPT_TAIL))
        },
        LegacyEvent::Generated(Ok(code)) => LegacyAction::Interpret(code),
        LegacyEvent::Generated(Err(e)) => LegacyAction::Finish(Err(LegacyError::Generation(e))),
        LegacyEvent::Interpreted(Ok(())) => LegacyAction::Finish(Ok(())),
        LegacyEvent::Interpreted(Err(e)) => LegacyAction::Finish(Err(LegacyError::Interpreter(e))),
    }
}

} // verus!
