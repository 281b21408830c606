use vstd::prelude::*;

verus! {

/// What can go wrong while alignments are merged.
#[derive(Copy, Clone, PartialEq, Eq, Structural, Debug, Hash)]
pub enum GcmError {
    /// The rows of one alignment differ in their gapped length.
    RaggedAlignment,
    /// A sequence name was given twice.
    DuplicateName,
    /// A glue or a merged alignment names a sequence that no constraint holds.
    UnknownSequence,
    /// The number of glue weights differs from the number of glues.
    WeightArityMismatch,
    /// A trace in text form names something that is no node of the graph.
    MalformedTrace,
    /// The weights of a graph add up past the largest score that can be recorded.
    WeightOverflow,
    /// A stored graph has an edge that cannot be: between a node and itself or a node that
    /// is none, without weight, or given twice.
    MalformedGraph,
    /// The constraints have more columns than a graph can have nodes.
    TooManyColumns,
    /// A row of a glue or of a merged alignment has more residues than its sequence.
    ResidueMismatch,
    /// A trace was found out of order: a fault of the tracer, not of its input.
    InternalInvariant,
}

/// The words that describe an error.
pub open spec fn description(e: GcmError) -> Seq<char> {
    match e {
        GcmError::RaggedAlignment => "rows of one alignment differ in length"@,
        GcmError::DuplicateName => "a sequence name occurs twice"@,
        GcmError::UnknownSequence => "a sequence name is not known"@,
        GcmError::WeightArityMismatch => "the number of weights differs from the number of glues"@,
        GcmError::MalformedTrace => "the trace names something that is no node"@,
        GcmError::WeightOverflow => "the weights of the graph add up too high"@,
        GcmError::MalformedGraph => "the graph has an edge that cannot be"@,
        GcmError::TooManyColumns => "the constraints have too many columns"@,
        GcmError::ResidueMismatch => "a row has more residues than its sequence"@,
        GcmError::InternalInvariant => "the trace is out of order"@,
    }
}

impl GcmError {
    /// A short description of the error.
    pub fn describe(&self) -> (r: &'static str)
        ensures
            r@ == description(*self),
    {
        match self {
            GcmError::RaggedAlignment => "rows of one alignment differ in length",
            GcmError::DuplicateName => "a sequence name occurs twice",
            GcmError::UnknownSequence => "a sequence name is not known",
            GcmError::WeightArityMismatch => "the number of weights differs from the number of glues",
            GcmError::MalformedTrace => "the trace names something that is no node",
            GcmError::WeightOverflow => "the weights of the graph add up too high",
            GcmError::MalformedGraph => "the graph has an edge that cannot be",
            GcmError::TooManyColumns => "the constraints have too many columns",
            GcmError::ResidueMismatch => "a row has more residues than its sequence",
            GcmError::InternalInvariant => "the trace is out of order",
        }
    }
}

} // verus!
