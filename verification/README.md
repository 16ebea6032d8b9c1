# rcore

The logic of a small teaching kernel for RISC-V and of its file system, written in
[Verus](https://github.com/verus-lang/verus). Every function states what it does in
`requires` and `ensures`, and Verus proves it.

- `src/easy_fs`: a file system on a block device: bitmaps, a cache of blocks, inodes with
  direct and indirect blocks, directories and links. A write is read back, files do not
  disturb each other, and no block is handed out twice.
- `src/mm`: addresses, frames, page tables and address spaces: loading programs, copying
  them, growing and unmapping areas. Address spaces have no frames in common.
- `src/fs`: open files, pipes and the console.
- `src/task`, `src/trap`, `src/syscall`: processes, their signals, the stride scheduler,
  traps and system calls, over one consistent state of the kernel.
- `src/batch.rs`, `src/loader.rs`, `src/link_app.rs`, `src/pack.rs`, `src/drivers`:
  programs that are linked to the kernel or packed into an image, and the memory that the
  block device works on.

Functions whose names begin with `law_` state properties that span several functions.

What the library takes for granted is marked `external_body`: five calls into `std` and
`xmas_elf`, each with a doc comment that says what is claimed of it, and the trait
`BlockDevice`, which drivers implement.

`app` holds what touches the machine: the packer with its command line, the virtio driver,
the registers of the processor and the heap.
