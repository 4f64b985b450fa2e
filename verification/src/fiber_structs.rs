//! The loops and macros found in a script.
use vstd::prelude::*;

verus! {

/// Structure for `loop [x]`.
pub struct FLoop {
    pub code_to_loop: String,
    pub iterations: u8,
    pub px_code: String,
}

/// Structure for `$macro_name`.
pub struct FMacro {
    pub name: String,
    pub value: String,
    pub full: String,
}

/// The contents of an [`FLoop`].
pub struct LoopModel {
    pub code_to_loop: Seq<char>,
    pub iterations: u8,
    pub px_code: Seq<char>,
}

/// The contents of an [`FMacro`].
pub struct MacroModel {
    pub name: Seq<char>,
    pub value: Seq<char>,
    pub full: Seq<char>,
}

impl View for FLoop {
    type V = LoopModel;

    open spec fn view(&self) -> LoopModel {
        LoopModel {
            code_to_loop: self.code_to_loop@,
            iterations: self.iterations,
            px_code: self.px_code@,
        }
    }
}

impl View for FMacro {
    type V = MacroModel;

    open spec fn view(&self) -> MacroModel {
        MacroModel { name: self.name@, value: self.value@, full: self.full@ }
    }
}

/// A loop header whose iteration count was below 2 and was raised to 2.
pub struct RaisedCount {
    pub line: String,
    pub count: u8,
}

impl View for RaisedCount {
    type V = (Seq<char>, u8);

    open spec fn view(&self) -> (Seq<char>, u8) {
        (self.line@, self.count)
    }
}

/// The contents of a sequence of raised loop headers.
pub open spec fn raised_models(v: Seq<RaisedCount>) -> Seq<(Seq<char>, u8)> {
    Seq::new(v.len(), |i: int| v[i]@)
}

/// The contents of a sequence of loops.
pub open spec fn loop_models(v: Seq<FLoop>) -> Seq<LoopModel> {
    Seq::new(v.len(), |i: int| v[i]@)
}

/// The contents of a sequence of macros.
pub open spec fn macro_models(v: Seq<FMacro>) -> Seq<MacroModel> {
    Seq::new(v.len(), |i: int| v[i]@)
}

} // verus!
