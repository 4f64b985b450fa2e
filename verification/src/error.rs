//! Why a script or a patch is refused.
use vstd::prelude::*;

verus! {

/// A script that cannot be turned into PXScript.
#[derive(Debug)]
pub enum ScriptError {
    /// A `loop` header whose iteration count is not a number from 0 to 255.
    InvalidIterationCount { line: String },
    /// A `loop` header with lines below it but no `{` line among them.
    MissingBodyStart { line: String },
    /// A `loop` header with lines below it but no `}` line among them.
    MissingBodyEnd { line: String },
    /// A macro definition that does not end with `;`.
    MissingSemicolon { line: String },
    /// A macro name with a space in it.
    SpacesInMacroName { name: String },
    /// A macro with an empty name.
    EmptyMacroName,
    /// A macro name defined twice (ignoring ASCII case).
    DuplicateMacro { name: String },
    /// An `$open_buy_menu` snippet without an opening parenthesis.
    InvalidBuyMenu,
}

/// A patch that cannot be applied.
#[derive(Debug)]
pub enum PatchError {
    /// The first line of the patch names no known patch type.
    InvalidPatchType,
    /// The pack-files path does not end with `/`.
    PathWithoutSlash { path: String },
    /// A lookup value that is not hexadecimal.
    InvalidHex { hex: String },
}

/// The contents of a [`ScriptError`].
pub enum ScriptErrorModel {
    InvalidIterationCount { line: Seq<char> },
    MissingBodyStart { line: Seq<char> },
    MissingBodyEnd { line: Seq<char> },
    MissingSemicolon { line: Seq<char> },
    SpacesInMacroName { name: Seq<char> },
    EmptyMacroName,
    DuplicateMacro { name: Seq<char> },
    InvalidBuyMenu,
}

impl View for ScriptError {
    type V = ScriptErrorModel;

    open spec fn view(&self) -> ScriptErrorModel {
        match self {
            ScriptError::InvalidIterationCount { line } => ScriptErrorModel::InvalidIterationCount {
                line: line@,
            },
            ScriptError::MissingBodyStart { line } => ScriptErrorModel::MissingBodyStart {
                line: line@,
            },
            ScriptError::MissingBodyEnd { line } => ScriptErrorModel::MissingBodyEnd {
                line: line@,
            },
            ScriptError::MissingSemicolon { line } => ScriptErrorModel::MissingSemicolon {
                line: line@,
            },
            ScriptError::SpacesInMacroName { name } => ScriptErrorModel::SpacesInMacroName {
                name: name@,
            },
            ScriptError::EmptyMacroName => ScriptErrorModel::EmptyMacroName,
            ScriptError::DuplicateMacro { name } => ScriptErrorModel::DuplicateMacro {
                name: name@,
            },
            ScriptError::InvalidBuyMenu => ScriptErrorModel::InvalidBuyMenu,
        }
    }
}

} // verus!
