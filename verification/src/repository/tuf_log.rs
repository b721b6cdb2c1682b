//! Adapters between TUF metadata and the log format: each keeps the name and
//! length, so converting there and back gives the same file.
use crate::repository::{log, tuf};
use vstd::prelude::*;

verus! {

/// The log file name with the same name.
pub fn log_file_name(name: tuf::FileName) -> (r: log::FileName)
    ensures
        r@ == name@,
{
    log::FileName::from(name.into_string())
}

/// The TUF file name with the same name.
pub fn tuf_file_name(name: log::FileName) -> (r: tuf::FileName)
    ensures
        r@ == name@,
{
    tuf::FileName::from(name.into_string())
}

/// The log file with the same name and length.
pub fn log_file(file: tuf::File) -> (r: log::File)
    ensures
        r@ == file@,
{
    let length = file.length();
    log::File::new(log_file_name(file.name()), length)
}

/// The TUF file with the same name and length.
pub fn tuf_file(file: log::File) -> (r: tuf::File)
    ensures
        r@ == file@,
{
    let length = file.length();
    tuf::File::new(tuf_file_name(file.name()), length)
}

} // verus!
