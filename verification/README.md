# os

A verified model of the process and memory-management system calls of a small
RISC-V (Sv39) teaching kernel, written in Verus.

The kernel's state is an explicit value, `task::Kernel`: physical memory (frame
allocator, page-table entries, roots), the tasks, the running task, the ready
queue and the loadable applications. Every system call is a function on that
value whose contract states what it returns and how the state changes.
What the kernel does to the outside world is handed back to the caller as plain
values: the physical byte stores of `sys_get_time` and `sys_trace`, the address
and exit code that `sys_waitpid` writes, the frame copies that give a
child made by `sys_fork` its parent's memory, whether `sys_exit` shuts the machine
down. Clock readings and program names come in as arguments.

## Layout

- `src/config.rs`, `src/address.rs`: constants and page arithmetic.
- `src/frame_allocator.rs`: the frame allocator.
- `src/page_table.rs`: physical memory as page-table walks see it.
- `src/memory_set.rs`: address spaces (`MemorySet`), areas, tokens.
- `src/loader.rs`: applications and the address space a fresh one gets.
- `src/task.rs`: tasks, the kernel state, and the operations the system
  calls are built from (fork, exec, spawn, exit, reaping, `sbrk`, areas).
- `src/scheduler.rs`: stride scheduling and its laws.
- `src/process_tree.rs`: the invariant that children lists name each child
  once, and its preservation by every system call.
- `src/process.rs`: the process and memory system calls.
- `src/token_mm.rs`: `mmap`/`munmap` working on an address space rebuilt from
  the running task's page-table token.
- `src/trace.rs`: `sys_trace`, system-call counting, and the `sys_get_time`
  that goes through `translated_refmut`.
- `src/user_access.rs`: splitting a user buffer into per-page pieces.
- `app/lib.rs`: the machine around the library (byte-addressed physical
  memory, the clock, reading user strings) and the checks a caller owes.
- `tests/`: executable scenarios.
