//! Size accounting around a pagination run: the aggregate pre-flight size
//! check and the summing of file sizes that feeds it. Walking directories
//! and reading file metadata belong to the caller; this module holds the
//! decisions made on the numbers it produces.

use vstd::prelude::*;

verus! {

use crate::output_formatting::PageFormat;
use crate::output_formatting::strip_root;
use crate::text::dec_digits;
use crate::text::u64_to_string;

/// The total-size ceiling was exceeded: the sizes that broke it.
#[derive(Debug)]
pub struct SizeLimitError {
    pub total_size: u64,
    pub total_allowed_size: u64,
}

impl SizeLimitError {
    /// The text of this failure.
    pub open spec fn message_chars(self) -> Seq<char> {
        "Error: The total size of the files ("@ + dec_digits(self.total_size as nat)
            + ") exceeds the allowed limit of "@ + dec_digits(self.total_allowed_size as nat)
            + " bytes."@
    }

    /// Renders the failure as text.
    pub fn message(&self) -> (s: String)
        ensures
            s@ == self.message_chars(),
    {
        let mut s = String::from_str("Error: The total size of the files (");
        let total = u64_to_string(self.total_size);
        s.append(total.as_str());
        s.append(") exceeds the allowed limit of ");
        let allowed = u64_to_string(self.total_allowed_size);
        s.append(allowed.as_str());
        s.append(" bytes.");
        proof {
            assert(s@ =~= self.message_chars());
        }
        s
    }
}

/// Accepts a run whose total input size stays within the allowed total, and
/// rejects exactly the runs whose total exceeds it.
pub fn check_size_limits(total_size: u64, total_allowed_size: u64) -> (r: Result<
    (),
    SizeLimitError,
>)
    ensures
        r is Ok <==> total_size <= total_allowed_size,
        r matches Err(e) ==> e.total_size == total_size && e.total_allowed_size
            == total_allowed_size,
{
    if total_size > total_allowed_size {
        Err(SizeLimitError { total_size, total_allowed_size })
    } else {
        Ok(())
    }
}

/// The sum of a list of byte sizes.
pub open spec fn sum_sizes(sizes: Seq<u64>) -> int
    decreases sizes.len(),
{
    if sizes.len() == 0 {
        0
    } else {
        sum_sizes(sizes.drop_last()) + sizes.last()
    }
}

proof fn lemma_sum_sizes_take_le(sizes: Seq<u64>, k: int)
    requires
        0 <= k <= sizes.len(),
    ensures
        sum_sizes(sizes.take(k)) <= sum_sizes(sizes),
    decreases sizes.len() - k,
{
    if k == sizes.len() {
        assert(sizes.take(k) =~= sizes);
    } else {
        assert(sizes.take(k + 1).drop_last() =~= sizes.take(k));
        assert(sizes.take(k + 1).last() == sizes[k]);
        lemma_sum_sizes_take_le(sizes, k + 1);
    }
}

/// Adds up the sizes of the given files: the summing half of a directory
/// size computation, whose metadata reads belong to the caller. Reports
/// `None` exactly when the true sum does not fit a `u64`.
pub fn total_file_size(sizes: &Vec<u64>) -> (r: Option<u64>)
    ensures
        match r {
            Some(t) => t == sum_sizes(sizes@),
            None => sum_sizes(sizes@) > u64::MAX,
        },
{
    let mut total: u64 = 0;
    let mut k: usize = 0;
    proof {
        assert(sizes@.take(0) =~= Seq::<u64>::empty());
    }
    while k < sizes.len()
        invariant
            k <= sizes@.len(),
            total == sum_sizes(sizes@.take(k as int)),
        decreases sizes@.len() - k,
    {
        let size = sizes[k];
        proof {
            assert(sizes@.take(k + 1).drop_last() =~= sizes@.take(k as int));
            assert(sizes@.take(k + 1).last() == sizes@[k as int]);
        }
        if size > u64::MAX - total {
            proof {
                lemma_sum_sizes_take_le(sizes@, k + 1);
            }
            return None;
        }
        total = total + size;
        k += 1;
    }
    proof {
        assert(sizes@.take(sizes@.len() as int) =~= sizes@);
    }
    Some(total)
}

/// Strips `root` from the front of `file_path` when it is a leading
/// directory of it, leaving other paths unchanged.
pub fn to_relative_path(root: &str, file_path: &str) -> (r: String)
    ensures
        r@ == strip_root(root@, file_path@),
{
    PageFormat::to_relative_path(root, file_path)
}

} // verus!
