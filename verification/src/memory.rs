use vstd::prelude::*;
use std::path::PathBuf;

verus! {

#[verifier::external_type_specification]
#[verifier::external_body]
pub struct ExPathBuf(std::path::PathBuf);

/// Where and how large a shared memory view is.
pub struct MemoryViewOptions {
    pub memory_view_name: String,
    pub path: PathBuf,
    pub capacity: u64,
}

#[derive(Debug, PartialEq, Eq, Structural)]
pub enum MemoryViewOptionError {
    /// The view name is empty.
    EmptyViewName,
    /// The view must be a multiple of 8 bytes, and be at least 16 bytes long.
    InvalidSize(u64),
}

/// A capacity that a memory view accepts: at least 16 bytes, and a
/// multiple of 8.
pub open spec fn valid_view_capacity(capacity: u64) -> bool {
    capacity >= 16 && capacity % 8 == 0
}

impl MemoryViewOptions {
    /// Options for the view `memory_view_name` backed by `path`, checked: the
    /// name must not be empty and the capacity must be valid.
    pub fn new(memory_view_name: String, path: PathBuf, capacity: u64) -> (r: Result<
        Self,
        MemoryViewOptionError,
    >)
        ensures
            memory_view_name@.len() == 0 ==> r == Err::<Self, MemoryViewOptionError>(
                MemoryViewOptionError::EmptyViewName,
            ),
            memory_view_name@.len() > 0 && !valid_view_capacity(capacity) ==> r == Err::<
                Self,
                MemoryViewOptionError,
            >(MemoryViewOptionError::InvalidSize(capacity)),
            memory_view_name@.len() > 0 && valid_view_capacity(capacity) ==> (r matches Ok(options)
                && options.memory_view_name@ == memory_view_name@ && options.path == path
                && options.capacity == capacity),
    {
        if memory_view_name.as_str().is_empty() {
            Err(MemoryViewOptionError::EmptyViewName)
        } else if capacity < 16 || capacity % 8 != 0 {
            Err(MemoryViewOptionError::InvalidSize(capacity))
        } else {
            Ok(Self { memory_view_name, path, capacity })
        }
    }
}

/// Options that say how many bytes of storage a view takes.
pub trait ViewOptions: Into<MemoryViewOptions> {
    /// The bytes of storage the view takes.
    spec fn actual_storage_size(&self) -> int;

    fn get_actual_storage_size(&self) -> (r: usize)
        requires
            self.actual_storage_size() <= usize::MAX,
        ensures
            r == self.actual_storage_size(),
    ;

    /// Whether the storage size can be counted in a `usize`, as
    /// `get_actual_storage_size` needs.
    fn storage_size_fits(&self) -> (r: bool)
        ensures
            r == (self.actual_storage_size() <= usize::MAX),
    ;
}

impl ViewOptions for MemoryViewOptions {
    open spec fn actual_storage_size(&self) -> int {
        self.capacity as int
    }

    fn get_actual_storage_size(&self) -> (r: usize) {
        self.capacity as usize
    }

    fn storage_size_fits(&self) -> (r: bool) {
        self.capacity <= usize::MAX as u64
    }
}

/// A memory view's storage, which the factory maps into memory.
pub struct WindowsMemoryFileFactory;

} // verus!
