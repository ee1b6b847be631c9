//! A verified FAT12 file system over a sector driver, with the disk
//! controller's register logic and the kernel's process table.
pub mod text;
pub mod dir_entry;
pub mod fat_table;
pub mod boot_sector;
pub mod root_dir;
pub mod chain;
pub mod storage;
pub mod volume;
pub mod ide;
pub mod ide_protocol;
pub mod process;
pub mod elf;

pub use dir_entry::DirectoryEntry;
pub use storage::{StorageDriver, zero_blocks};
pub use volume::{Fat12Volume, fat12_init, fat12_read_file, fat12_create_file, fat12_delete_file, fat12_list_files,
    fat12_file_exists, fat12_get_file_size};
pub use process::{Priority, ProcessState, Process, ProcessTable, init_kernel_process, create_process, destroy_process,
    cleanup_terminated_processes, exit_current_process, get_current_process, get_current_process_mut, get_process,
    get_process_mut};
