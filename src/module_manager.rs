use vstd::prelude::*;

verus! {

/// A function of a loaded module: its name, parameter names and body text.
#[derive(Debug)]
pub struct Function {
    pub name: String,
    pub parameters: Vec<String>,
    pub body: String,
}

} // verus!
