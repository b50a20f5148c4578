//! The size filter the walker applies before a file enters the pipeline.

use vstd::prelude::*;

use crate::file_manager::File;
use crate::params::{parsed_size, Params};

verus! {

/// Whether a scanned file is at least as large as the configured minimum.
/// A missing minimum, an unparsable minimum, and a file of unknown size
/// all pass: the threshold is inclusive on the allowed side, so only a
/// file known to be strictly smaller is rejected.
pub fn is_file_gt_minsize(app_opts: &Params, file: &File) -> (r: bool)
    ensures
        r == (match app_opts.min_size {
            Some(msize) => match parsed_size(msize@) {
                Some(m) => match file.size {
                    Some(fsize) => fsize >= m,
                    None => true,
                },
                None => true,
            },
            None => true,
        }),
{
    match app_opts.get_min_size() {
        Some(msize) => match file.size {
            Some(fsize) => fsize >= msize,
            None => true,
        },
        None => true,
    }
}

/// The same inclusive size filter under the name the command-line layer
/// uses.
pub fn is_file_gt_min_size(app_opts: &Params, file: &File) -> (r: bool)
    ensures
        r == (match app_opts.min_size {
            Some(msize) => match parsed_size(msize@) {
                Some(m) => match file.size {
                    Some(fsize) => fsize >= m,
                    None => true,
                },
                None => true,
            },
            None => true,
        }),
{
    is_file_gt_minsize(app_opts, file)
}

} // verus!
