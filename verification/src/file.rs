//! Sending files: where a file lands on the remote machine and the unit in
//! which its size is shown.

use vstd::prelude::*;
use crate::text::{chars_of, push_str, string_of};

verus! {

/// Where a sent file lands: the given destination, else the remote
/// `~/Downloads/` directory under the file's own name.
pub open spec fn destination_of(file_name: Seq<char>, dest: Option<Seq<char>>) -> Seq<char> {
    match dest {
        Some(d) => d,
        None => "~/Downloads/"@ + file_name,
    }
}

/// Where a sent file lands on the remote machine.
pub fn remote_destination(file_name: &str, dest: Option<&str>) -> (r: String)
    ensures
        r@ == destination_of(
            file_name@,
            match dest {
                Some(d) => Some(d@),
                None => None,
            },
        ),
{
    match dest {
        Some(d) => d.to_owned(),
        None => {
            let mut out = chars_of("~/Downloads/");
            push_str(&mut out, file_name);
            string_of(&out)
        },
    }
}

/// The unit in which a size is shown.
#[derive(Debug, Clone, Copy, PartialEq, Eq)]
pub enum SizeUnit {
    /// Whole bytes
    B,
    /// Kibibytes, one decimal
    KB,
    /// Mebibytes, one decimal
    MB,
    /// Gibibytes, one decimal
    GB,
}

/// The unit for a size of `bytes`: bytes below 1024, then kilobytes below
/// 1024², then megabytes, and gigabytes from 1024³ on when `with_gb`.
pub open spec fn unit_for(bytes: u64, with_gb: bool) -> SizeUnit {
    if bytes < 1024 {
        SizeUnit::B
    } else if bytes < 1024 * 1024 {
        SizeUnit::KB
    } else if !with_gb || bytes < 1024 * 1024 * 1024 {
        SizeUnit::MB
    } else {
        SizeUnit::GB
    }
}

/// The unit in which to show a size of `bytes`. File transfers go up to
/// gigabytes; clipboard file transfers stop at megabytes.
pub fn size_unit(bytes: u64, with_gb: bool) -> (r: SizeUnit)
    ensures
        r == unit_for(bytes, with_gb),
{
    if bytes < 1024 {
        SizeUnit::B
    } else if bytes < 1024 * 1024 {
        SizeUnit::KB
    } else if !with_gb || bytes < 1024 * 1024 * 1024 {
        SizeUnit::MB
    } else {
        SizeUnit::GB
    }
}

} // verus!
