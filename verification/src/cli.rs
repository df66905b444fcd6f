//! Validated engine options: sizes given in KiB are scaled to bytes, and
//! zero values are rejected.

use vstd::prelude::*;
use vstd::string::StringExecFns;

verus! {

/// A rejected option, with the user-visible text naming it.
#[derive(Clone, Copy, PartialEq, Eq, Structural, Debug)]
pub enum OptionsError {
    InvalidReadBufferSize,
    InvalidKeyFlushSize,
    InvalidFilePartSize,
    InvalidIndexCycle,
    InvalidWorkerCount,
    InvalidOrder,
}

impl OptionsError {
    /// The user-visible text for this error.
    pub fn message(&self) -> (r: &'static str)
        ensures
            *self is InvalidReadBufferSize ==> r@ == "Invalid read buffer size"@,
            *self is InvalidKeyFlushSize ==> r@ == "Invalid key flush size"@,
            *self is InvalidFilePartSize ==> r@ == "Invalid file part size"@,
            *self is InvalidIndexCycle ==> r@ == "Invalid index cycle"@,
            *self is InvalidWorkerCount ==> r@ == "Invalid worker count"@,
            *self is InvalidOrder ==> r@ == "Invalid ordering"@,
    {
        match self {
            OptionsError::InvalidReadBufferSize => "Invalid read buffer size",
            OptionsError::InvalidKeyFlushSize => "Invalid key flush size",
            OptionsError::InvalidFilePartSize => "Invalid file part size",
            OptionsError::InvalidIndexCycle => "Invalid index cycle",
            OptionsError::InvalidWorkerCount => "Invalid worker count",
            OptionsError::InvalidOrder => "Invalid ordering",
        }
    }
}

/// CLI options passed by the user, validated and scaled.
pub struct CLIOptions {
    pub user_code: String,
    pub read_buffer_size: usize,
    pub key_flush_size: usize,
    pub max_file_part_size: usize,
    pub index_every: usize,
    pub workers: usize,
    pub order: String,
    pub temp_dir: String,
}

impl CLIOptions {
    /// Validates raw option values and applies the KiB scaling: every size
    /// is multiplied by 1024; zero values, oversize products, a zero cycle
    /// or worker count, and an ordering other than asc or desc are
    /// rejected.
    pub fn new(
        user_code: String,
        read_buffer_kib: usize,
        key_flush_kib: usize,
        max_file_part_kib: usize,
        index_every: usize,
        workers: usize,
        order: String,
        temp_dir: String,
    ) -> (r: Result<CLIOptions, OptionsError>)
        ensures
            r matches Ok(o) ==> {
                &&& read_buffer_kib >= 1 && o.read_buffer_size == 1024 * read_buffer_kib
                &&& key_flush_kib >= 1 && o.key_flush_size == 1024 * key_flush_kib
                &&& max_file_part_kib >= 1 && o.max_file_part_size == 1024 * max_file_part_kib
                &&& index_every >= 1 && o.index_every == index_every
                &&& workers >= 1 && o.workers == workers
                &&& o.order@ == order@ && (order@ == "asc"@ || order@ == "desc"@)
                &&& o.user_code@ == user_code@
                &&& o.temp_dir@ == temp_dir@
            },
            r matches Err(e) ==> {
                ||| e is InvalidReadBufferSize && (read_buffer_kib == 0 || 1024 * read_buffer_kib
                    > usize::MAX)
                ||| e is InvalidKeyFlushSize && (key_flush_kib == 0 || 1024 * key_flush_kib
                    > usize::MAX)
                ||| e is InvalidFilePartSize && (max_file_part_kib == 0 || 1024 * max_file_part_kib
                    > usize::MAX)
                ||| e is InvalidIndexCycle && index_every == 0
                ||| e is InvalidWorkerCount && workers == 0
                ||| e is InvalidOrder && order@ != "asc"@ && order@ != "desc"@
            },
    {
        let read_buffer_size = match scale_kib(read_buffer_kib) {
            Some(b) => b,
            None => {
                return Err(OptionsError::InvalidReadBufferSize);
            },
        };
        let key_flush_size = match scale_kib(key_flush_kib) {
            Some(b) => b,
            None => {
                return Err(OptionsError::InvalidKeyFlushSize);
            },
        };
        let max_file_part_size = match scale_kib(max_file_part_kib) {
            Some(b) => b,
            None => {
                return Err(OptionsError::InvalidFilePartSize);
            },
        };
        if index_every == 0 {
            return Err(OptionsError::InvalidIndexCycle);
        }
        if workers == 0 {
            return Err(OptionsError::InvalidWorkerCount);
        }
        let asc = String::from_str(&order) == String::from_str("asc");
        let desc = String::from_str(&order) == String::from_str("desc");
        if !asc && !desc {
            return Err(OptionsError::InvalidOrder);
        }
        Ok(
            CLIOptions {
                user_code,
                read_buffer_size,
                key_flush_size,
                max_file_part_size,
                index_every,
                workers,
                order,
                temp_dir,
            },
        )
    }
}

/// Scales a size option given in KiB to bytes, rejecting zero and anything
/// beyond the machine's integer range.
pub fn scale_kib(kib: usize) -> (r: Option<usize>)
    ensures
        r matches Some(bytes) ==> kib >= 1 && bytes == 1024 * kib,
        r is None <==> (kib == 0 || 1024 * kib > usize::MAX),
{
    if kib == 0 {
        return None;
    }
    kib.checked_mul(1024)
}

} // verus!
