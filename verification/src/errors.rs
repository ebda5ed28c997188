use vstd::prelude::*;

verus! {

/// Every failure the library reports to a caller.
///
/// Construction, registration and removal errors are returned synchronously;
/// no operation of this crate panics on library-level misuse.
#[derive(Debug, Clone, Copy, PartialEq, Eq, Structural)]
pub enum Error {
    /// The number of label values supplied does not match the descriptor's
    /// declared variable-label arity.
    LabelCardinalityMismatch,
    /// A constant label name collides with a declared variable-label name,
    /// or a label name is declared twice.
    DuplicateLabel,
    /// A collector, or one of its descriptor identities, is already present
    /// in the registry.
    AlreadyRegistered,
    /// A metric of the same fully-qualified name was previously registered
    /// with a different shape (label names or help text).
    DescriptorConflict,
    /// One collector exposes two descriptors with equal identity hash.
    DuplicateDescriptor,
    /// Unregistration was requested for a collector the registry does not
    /// hold.
    NotRegistered,
    /// Removal by label values named a combination that does not exist.
    MetricNotFound,
    /// An encoder was handed a family without any samples.
    EmptyFamily,
    /// An encoder was handed a family without a name.
    UnnamedFamily,
    /// A custom registry was configured with an empty name prefix.
    EmptyPrefix,
    /// A label-partitioned container was built without any variable labels.
    NoVariableLabels,
    /// A push job name contains a `/`.
    InvalidJob,
    /// A push grouping-label value contains a `/`.
    InvalidGroupingValue,
    /// A pushed metric already carries the `job` label or one of the
    /// grouping labels.
    ReservedLabel,
}

} // verus!
