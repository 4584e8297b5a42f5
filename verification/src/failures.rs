use vstd::prelude::*;

use crate::part::Part;
use crate::IoError;

verus! {

/// One discrepancy between a manifest and a directory. These are data, not
/// control flow: verification accumulates them and never short-circuits.
pub enum VerifyFailure<P> {
    /// An expected file is not present.
    Missing { path: P, part: Part },
    /// A file is present that the manifest does not mention; its identity is
    /// captured when it could be computed.
    Extra { path: P, part: Result<Part, IoError> },
    /// A file is present with the wrong identity.
    Bad { path: P, expected: Part, actual: Part },
    /// The identity of a present file could not be computed.
    Error { path: P, err: IoError },
}

impl<P> VerifyFailure<P> {
    /// A failure for a file the manifest does not mention.
    pub fn extra(path: P, part: Result<Part, IoError>) -> (r: Self)
        ensures
            r == (VerifyFailure::Extra { path, part }),
    {
        VerifyFailure::Extra { part, path }
    }

    /// The same failure attached to another path representation.
    pub fn with_path<Q>(self, path: Q) -> (r: VerifyFailure<Q>)
        ensures
            (match self {
                VerifyFailure::Missing { part, .. } => r == VerifyFailure::Missing { path, part },
                VerifyFailure::Extra { part, .. } => r == VerifyFailure::Extra { path, part },
                VerifyFailure::Bad { expected, actual, .. } => r == VerifyFailure::Bad {
                    path,
                    expected,
                    actual,
                },
                VerifyFailure::Error { err, .. } => r == VerifyFailure::Error { path, err },
            }),
    {
        match self {
            VerifyFailure::Missing { part, path: _ } => VerifyFailure::Missing { path, part },
            VerifyFailure::Extra { part, path: _ } => VerifyFailure::Extra { path, part },
            VerifyFailure::Bad { expected, actual, path: _ } => VerifyFailure::Bad {
                path,
                expected,
                actual,
            },
            VerifyFailure::Error { err, path: _ } => VerifyFailure::Error { path, err },
        }
    }
}

/// What verifying one file returns: success when the computed identity equals
/// the expected one, `Bad` on a mismatch, `Error` when no identity could be
/// computed.
pub open spec fn spec_verify<P>(expected: Part, actual: Result<Part, IoError>, path: P) -> Result<
    (),
    VerifyFailure<P>,
> {
    match actual {
        Ok(a) => if a == expected {
            Ok(())
        } else {
            Err(VerifyFailure::Bad { path, expected, actual: a })
        },
        Err(e) => Err(VerifyFailure::Error { path, err: e }),
    }
}

impl Part {
    /// Classify one on-disk file against this expected identity, the file's
    /// identity having been computed by the caller.
    pub fn verify<P>(&self, actual: Result<Part, IoError>, part_path: P) -> (r: Result<
        (),
        VerifyFailure<P>,
    >)
        ensures
            r == spec_verify(*self, actual, part_path),
    {
        match actual {
            Ok(a) => {
                if *self == a {
                    Ok(())
                } else {
                    Err(VerifyFailure::Bad { path: part_path, expected: *self, actual: a })
                }
            },
            Err(e) => Err(VerifyFailure::Error { path: part_path, err: e }),
        }
    }
}

/// Mathematical value of one failure with a concrete path.
pub enum FailureView {
    Missing { path: Seq<char>, part: Part },
    Extra { path: Seq<char>, part: Result<Part, IoError> },
    Bad { path: Seq<char>, expected: Part, actual: Part },
    Error { path: Seq<char>, err: IoError },
}

impl View for VerifyFailure<String> {
    type V = FailureView;

    open spec fn view(&self) -> FailureView {
        match self {
            VerifyFailure::Missing { path, part } => FailureView::Missing {
                path: path@,
                part: *part,
            },
            VerifyFailure::Extra { path, part } => FailureView::Extra { path: path@, part: *part },
            VerifyFailure::Bad { path, expected, actual } => FailureView::Bad {
                path: path@,
                expected: *expected,
                actual: *actual,
            },
            VerifyFailure::Error { path, err } => FailureView::Error { path: path@, err: *err },
        }
    }
}

/// The failure views of a failure list.
pub open spec fn failures_view(s: Seq<VerifyFailure<String>>) -> Seq<FailureView> {
    s.map_values(|f: VerifyFailure<String>| f@)
}

} // verus!
