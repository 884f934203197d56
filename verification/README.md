# kernel_lib

The logic of a small teaching kernel for RISC-V, written in Verus: every function in `src/`
carries a contract that Verus proves.

## Layout

- File systems
  - `block_dev`: the block device interface, which also keeps the record of the writes made
    to the device, and a device kept in memory.
  - `lru`, `block_cache`: the least-recently-used dictionary and the block cache built on it.
  - `codec`, `layout`, `bitmap`, `inode`, `inode_alloc`, `efs`, `vfs`: an inode file system
    with a super block, two bitmaps, inodes of direct and indirect blocks, and a root
    directory; `efs` holds the laws that tie its operations together (what a read gives back
    after a write or a clear, what a lookup finds after a create, what stays of other files
    across a write, a clear or a create).
  - `flat_fs`: the flat file system of fixed-size files that the kernel mounts.
- Kernel
  - `id`: number allocators and the tables built on them.
  - `sched`, `process`, `sync`, `pipe`: the ready queue, the process and thread tables and
    their system calls, locks and semaphores, and pipes. Where the kernel would switch tasks,
    the functions return what to do next and leave the switch to the caller.
  - `trap`: what the firmware and the kernel do on each kind of trap, which system call a
    number stands for, and how answers go back in the saved registers.
  - `mm`, `kernel`: memory layout, address arithmetic, the timer, the console files, the
    buffers of file reads and writes, and the build configuration of the chapters;
    `link_app`, `makefile`: the assembly file that links a chapter's user programs into its
    kernel, and the Makefile and cargo commands that build and boot it.
  - `net`, `socket`: Ethernet, ARP, IPv4, TCP and UDP headers and packets, checksums, the
    replies the kernel sends, and the connection table.

`app/` packs user programs into a file system image and drives the network code over a
device; `tests/` runs the library on concrete values.
