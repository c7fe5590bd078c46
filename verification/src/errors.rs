//! The evaluation error taxonomy. Every failure of parsing or evaluation is
//! reported as one structured `EvalError`; no library function panics.

use vstd::prelude::*;

verus! {

/// Ghost-level form of an evaluation error, over character sequences.
pub enum EvalErrorV {
    /// Structural shape violation found while parsing a model or an input
    /// record.
    MalformedModel { detail: Seq<char> },
    /// A decision requires a column that is neither an initial fact nor an
    /// output of an earlier decision. An empty `decision_id` marks an
    /// exported name that no decision produced and no default covers.
    MissingFact { decision_id: Seq<char>, column: Seq<char> },
    /// Two decisions (or a decision and the initial record) claim the same
    /// output name.
    DuplicateOutput { name: Seq<char> },
    /// No rule of the decision matched and the decision has no default
    /// outputs.
    NoMatchingRule { decision_id: Seq<char> },
    /// No evaluation order satisfies the dependencies; `ids` lists the
    /// decisions that could not be scheduled, in declaration order.
    CyclicDependency { ids: Seq<Seq<char>> },
}

/// One structured evaluation error.
#[derive(Debug, PartialEq, Eq)]
pub enum EvalError {
    MalformedModel { detail: String },
    MissingFact { decision_id: String, column: String },
    DuplicateOutput { name: String },
    NoMatchingRule { decision_id: String },
    CyclicDependency { ids: Vec<String> },
}

impl View for EvalError {
    type V = EvalErrorV;

    open spec fn view(&self) -> EvalErrorV {
        match self {
            EvalError::MalformedModel { detail } => EvalErrorV::MalformedModel {
                detail: detail@,
            },
            EvalError::MissingFact { decision_id, column } => EvalErrorV::MissingFact {
                decision_id: decision_id@,
                column: column@,
            },
            EvalError::DuplicateOutput { name } => EvalErrorV::DuplicateOutput { name: name@ },
            EvalError::NoMatchingRule { decision_id } => EvalErrorV::NoMatchingRule {
                decision_id: decision_id@,
            },
            EvalError::CyclicDependency { ids } => EvalErrorV::CyclicDependency {
                ids: ids.deep_view(),
            },
        }
    }
}

} // verus!
