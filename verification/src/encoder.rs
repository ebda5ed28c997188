//! Exposition encoders: pure functions from a snapshot to wire bytes.
//!
//! Both encoders walk the families in order and reject a family without
//! samples or without a name before writing anything for it; families
//! before the failing one stay written.

use crate::errors::Error;
use crate::proto::{MetricFamily, MetricFamilyV};
use vstd::prelude::*;

pub mod pb;
pub mod text;

verus! {

/// The check every encoder applies to a family before writing it.
pub open spec fn family_check(f: MetricFamilyV) -> Option<Error> {
    if f.metrics.len() == 0 {
        Some(Error::EmptyFamily)
    } else if f.name.len() == 0 {
        Some(Error::UnnamedFamily)
    } else {
        None
    }
}

/// The first check failure in a snapshot, scanning in order.
pub open spec fn first_failure(fams: Seq<MetricFamilyV>) -> Option<Error>
    decreases fams.len(),
{
    if fams.len() == 0 {
        None
    } else if family_check(fams[0]) is Some {
        family_check(fams[0])
    } else {
        first_failure(fams.drop_first())
    }
}

/// Fail-fast validation of one family: a family without samples, then one
/// without a name, is rejected.
pub fn check_metric_family(mf: &MetricFamily) -> (r: Result<(), Error>)
    ensures
        r == match family_check(mf.deep_view()) {
            Some(e) => Result::<(), Error>::Err(e),
            None => Result::<(), Error>::Ok(()),
        },
{
    if mf.metrics.len() == 0 {
        return Err(Error::EmptyFamily);
    }
    if mf.name.as_str().unicode_len() == 0 {
        return Err(Error::UnnamedFamily);
    }
    Ok(())
}

/// An interface for encoding metric families into an underlying wire
/// protocol.
pub trait Encoder {
    /// The bytes one snapshot encodes to: every family before the first
    /// failing one.
    spec fn wire_bytes(fams: Seq<MetricFamilyV>) -> Seq<u8>;

    /// Append a snapshot's encoding to `writer`.  Families are written in
    /// order until the first one that fails its check; that failure is the
    /// result.
    fn encode(&self, mfs: &Vec<MetricFamily>, writer: &mut Vec<u8>) -> (r: Result<(), Error>)
        ensures
            final(writer)@ == old(writer)@ + Self::wire_bytes(mfs.deep_view()),
            r == match first_failure(mfs.deep_view()) {
                Some(e) => Result::<(), Error>::Err(e),
                None => Result::<(), Error>::Ok(()),
            },
    ;

    /// The format's media type.
    spec fn media_type() -> Seq<char>;

    /// The target format's media type.
    fn format_type(&self) -> (r: &'static str)
        ensures
            r@ == Self::media_type(),
    ;
}

} // verus!
