//! Data model for generated contract documentation.
//!
//! A documentation run walks the contract sources under a base directory
//! and renders one page per contract.  The types here describe what a run
//! extracts — contracts, their methods, types and events — and the
//! [`DocGenerator`] records the directories a run works between and how
//! far it got.  The walking, parsing and writing are the caller's
//! business; paths are carried as plain strings.

use vstd::prelude::*;

verus! {

/// How far a documentation run has progressed.
#[derive(Debug, Clone, PartialEq, Eq)]
pub enum GeneratorState {
    /// No run started yet.
    Idle,
    /// Looking for contract directories.
    Discovery,
    /// Reading contract sources.
    Parsing,
    /// Rendering the output pages.
    Generation,
    /// The run finished.
    Complete,
    /// The run gave up, with a reason.
    Failed(String),
}

/// Everything extracted about one contract.
#[derive(Debug, Clone, PartialEq, Eq)]
pub struct ContractDoc {
    pub name: String,
    pub description: Option<String>,
    pub methods: Vec<MethodDoc>,
    pub types: Vec<TypeDoc>,
    pub events: Vec<EventDoc>,
}

/// One public method of a contract.
#[derive(Debug, Clone, PartialEq, Eq)]
pub struct MethodDoc {
    pub name: String,
    pub description: Option<String>,
    pub signature: String,
}

/// One type a contract declares.
#[derive(Debug, Clone, PartialEq, Eq)]
pub struct TypeDoc {
    pub name: String,
    pub description: Option<String>,
    pub fields: Vec<String>,
}

/// One event a contract emits.
#[derive(Debug, Clone, PartialEq, Eq)]
pub struct EventDoc {
    pub name: String,
    pub description: Option<String>,
}

/// A documentation run: where to read, where to write, and how far it
/// got.
#[derive(Debug, Clone, PartialEq, Eq)]
pub struct DocGenerator {
    /// Directory whose subdirectories hold the contracts.
    pub base_path: String,
    /// Directory the rendered pages go to.
    pub output_path: String,
    /// Progress of the current run.
    pub state: GeneratorState,
}

impl DocGenerator {
    /// A generator for reading contracts under `base_path` and writing
    /// pages under `output_path`; no run has started.
    pub fn new(base_path: String, output_path: String) -> (r: DocGenerator)
        ensures
            r.base_path == base_path,
            r.output_path == output_path,
            r.state == GeneratorState::Idle,
    {
        DocGenerator { base_path, output_path, state: GeneratorState::Idle }
    }
}

} // verus!
