//! Findings about a phrase.
use vstd::prelude::*;

verus! {

#[derive(Debug, Clone, Copy, PartialEq, Eq, Structural)]
pub enum ValidationLevel {
    Info,
    Warning,
    Error,
}

/// A finding and its wording.
#[derive(Debug)]
pub struct ValidationWarning {
    pub level: ValidationLevel,
    pub message: String,
}

/// What a finding says.
#[verifier::ext_equal]
pub struct WarningView {
    pub level: ValidationLevel,
    pub message: Seq<char>,
}

impl View for ValidationWarning {
    type V = WarningView;

    open spec fn view(&self) -> WarningView {
        WarningView { level: self.level, message: self.message@ }
    }
}

} // verus!
