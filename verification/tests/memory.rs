use shm_queue::memory::{MemoryViewOptionError, MemoryViewOptions, ViewOptions};
use shm_queue::queue::QueueOptions;
use std::path::PathBuf;

#[test]
fn options_with_an_empty_name_are_refused() {
    let r = MemoryViewOptions::new(String::new(), PathBuf::from("/tmp"), 64);
    assert_eq!(r.err(), Some(MemoryViewOptionError::EmptyViewName));
}

#[test]
fn options_with_a_small_capacity_are_refused() {
    let r = MemoryViewOptions::new("view".to_string(), PathBuf::from("/tmp"), 8);
    assert_eq!(r.err(), Some(MemoryViewOptionError::InvalidSize(8)));
}

#[test]
fn options_with_an_unaligned_capacity_are_refused() {
    let r = MemoryViewOptions::new("view".to_string(), PathBuf::from("/tmp"), 20);
    assert_eq!(r.err(), Some(MemoryViewOptionError::InvalidSize(20)));
}

#[test]
fn options_with_a_valid_capacity_are_kept() {
    let options = MemoryViewOptions::new("view".to_string(), PathBuf::from("/tmp/v"), 16).unwrap();
    assert_eq!(options.memory_view_name, "view");
    assert_eq!(options.path, PathBuf::from("/tmp/v"));
    assert_eq!(options.capacity, 16);
    assert_eq!(options.get_actual_storage_size(), 16);
}

#[test]
fn queue_options_add_the_header() {
    let options = MemoryViewOptions::new("q".to_string(), PathBuf::from("/tmp"), 96).unwrap();
    let queue_options = QueueOptions::from(options);
    assert_eq!(queue_options.get_actual_storage_size(), 128);
    let back: MemoryViewOptions = queue_options.into();
    assert_eq!(back.capacity, 96);
    assert_eq!(back.memory_view_name, "q");
}

#[test]
fn storage_sizes_that_overflow_are_reported() {
    let options = MemoryViewOptions::new("q".to_string(), PathBuf::from("/tmp"), u64::MAX - 7).unwrap();
    assert!(options.storage_size_fits());
    let queue_options = QueueOptions::from(options);
    assert!(!queue_options.storage_size_fits());
}
