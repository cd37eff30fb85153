//! When a generated file has to be made again.

use vstd::prelude::*;

verus! {

/// A generated file is out of date if it does not exist, if the modification
/// time of the source or of the file itself is not known, or if the source was
/// modified after it.
pub open spec fn is_out_of_date(
    dst_exists: bool,
    src_modified: Option<i128>,
    dst_modified: Option<i128>,
) -> bool {
    ||| !dst_exists
    ||| src_modified is None
    ||| dst_modified is None
    ||| src_modified->Some_0 > dst_modified->Some_0
}

/// Tells whether the file generated from a source has to be made again.
///
/// `dst_exists` says whether the generated file exists. The two times are the
/// modification times of the source and of the generated file, in nanoseconds
/// from the Unix epoch, or `None` where the file system did not give one.
pub fn needs_regen(dst_exists: bool, src_modified: Option<i128>, dst_modified: Option<i128>) -> (regen:
    bool)
    ensures
        regen == is_out_of_date(dst_exists, src_modified, dst_modified),
{
    if !dst_exists {
        return true;
    }
    match (src_modified, dst_modified) {
        (Some(s), Some(d)) => s > d,
        _ => true,
    }
}

} // verus!
