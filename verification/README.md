# eucalypt

The storage and process core of a small x86-64 kernel, written in Verus.

`src/` is the verified library:

- `dir_entry`, `fat_table`, `boot_sector`, `root_dir`, `chain`: the FAT12
  on-disk structures as functions on bytes, with their round-trip laws.
- `volume`: a FAT12 volume on any `StorageDriver` (mount, read, create,
  delete, list files), each operation stated over what the drive holds:
  which sectors it reads, which bytes it writes where, and that a file read
  back after it was created gives its data.
- `ide`, `ide_protocol`: the ATA (IDE) PIO driver's register encoding and its
  protocol as step functions that say which port access comes next.
- `process`: the process table and the initial stack frame of a new process.
- `storage`, `elf`, `text`: the sector driver trait with its model (what
  each sector holds), runs of sectors, and small helpers.

`app/` is the program around it: port I/O, the global driver and process
state, stack allocation, and the boot sequence. `tests/` runs the library on
in-memory disks and simulated controllers.
