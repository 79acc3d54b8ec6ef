//! Why a batch cannot be built.

use vstd::prelude::*;

verus! {

#[derive(Clone, Copy, Debug, PartialEq, Eq, Structural)]
pub enum SiteError {
    /// A document lacks two text runs, or its second text run is no `M.D.YY` date.
    DocumentMetadata,
    /// A template lacks a placeholder that it must hold.
    TemplateConfiguration,
}

} // verus!
