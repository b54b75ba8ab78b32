//! A source asset that exports the string content of another asset as the
//! default export of a JS module. Reading the underlying content and
//! formatting the module text belong to external collaborators.

use vstd::prelude::*;

verus! {

use crate::primitives::StringVc;

/// The identity modifier under which the text content asset registers
/// itself.
pub fn modifier() -> (r: StringVc)
    ensures
        r.value@ == "text content"@,
{
    StringVc { value: String::from_str("text content") }
}

/// A source asset that exports the string content of `source` as the default
/// export of a JS module.
pub struct TextContentSourceAsset {
    /// The identity of the underlying source asset.
    pub source: usize,
}

impl TextContentSourceAsset {
    pub fn new(source: usize) -> (r: Self)
        ensures
            r.source == source,
    {
        TextContentSourceAsset { source }
    }
}

} // verus!
