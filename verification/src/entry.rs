//! The domain entity: one parsed interrupt entry.

use vstd::prelude::*;

verus! {

/// A parsed interrupt entry: the identifier on the left of the `=` and the
/// interrupt number on the right.
pub struct Irq {
    pub name: String,
    pub number: i16,
}

/// Mathematical model of an entry: the name as a character sequence and the
/// number as an unbounded integer.
pub ghost struct IrqModel {
    pub name: Seq<char>,
    pub number: int,
}

impl View for Irq {
    type V = IrqModel;

    open spec fn view(&self) -> IrqModel {
        IrqModel { name: self.name@, number: self.number as int }
    }
}

impl DeepView for Irq {
    type V = IrqModel;

    open spec fn deep_view(&self) -> IrqModel {
        self@
    }
}

/// The invariant the parser establishes for every entry it yields: a
/// non-empty name and a number within the signed 16-bit range.
pub open spec fn wf_entry(e: IrqModel) -> bool {
    e.name.len() > 0 && -32768 <= e.number <= 32767
}

} // verus!
