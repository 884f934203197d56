use kernel_lib::flat_fs::{self, File};
use kernel_lib::block_dev::{BlockDevice, MemoryBlockDevice};
use kernel_lib::id::{IDAllocDict, IDAllocator};
use kernel_lib::link_app::create_link_app;
use kernel_lib::makefile::{build, create_makefile, link_arg, LinkArg};
use kernel_lib::kernel::{clock_ms, init, initial_ch, Makefile, User, join_buffers, next_timer_deadline, read_into_buffers, sleep_finished, wait_over, Context, FileType, Stdin, Stdout};
use kernel_lib::mm::{DMAAllocator, LogicalSegment, Segment, VirtioHal};
use kernel_lib::pipe::{pipe_read, pipe_read_step, pipe_write, pipe_write_step, PipeBuffer, PipeStep, BUFFER_SIZE};
use kernel_lib::sync::{Acquire, Mutex, Semaphore};
use kernel_lib::trap::{
    exception_handler, sbi_return, syscall_dispatch, Syscall, SyscallNumbers, syscall_return, trap_handler, FirmwareAction, KernelAction, MachineCause, SbiCall,
    TrapContext, UserCause,
};
use kernel_lib::process::{
    exit_task, getpid, mutex_create, mutex_lock, mutex_unlock, semaphore_create, semaphore_down, semaphore_up, thread_create, waitpid,
    waittid, Process,
};

#[test]
fn id_allocator_reuses_last_given_back() {
    let mut a = IDAllocator::new();
    assert_eq!(a.allocate(), 0);
    assert_eq!(a.allocate(), 1);
    assert_eq!(a.allocate(), 2);
    let mut d: IDAllocDict<&str> = IDAllocDict::new();
    let x = d.insert("x");
    let y = d.insert("y");
    let z = d.insert("z");
    assert_eq!((x, y, z), (0, 1, 2));
    d.remove(0);
    d.remove(2);
    assert_eq!(d.insert("w"), 2);
    assert_eq!(d.insert("v"), 0);
    assert_eq!(d.insert("u"), 3);
    assert_eq!(d.get(1), Some(&"y"));
    *d.get_mut(1).unwrap() = "changed";
    assert_eq!(d.get(1), Some(&"changed"));
    assert!(d.get_mut(9).is_none());
    let ids: Vec<usize> = d.iter().iter().map(|(k, _)| *k).collect();
    assert_eq!(ids, vec![0, 1, 2, 3]);
}

#[test]
fn mutex_hands_over_in_order() {
    let mut m = Mutex::new(3);
    assert!(m.lock(1) == Acquire::Acquired);
    assert!(m.lock(2) == Acquire::Blocked);
    assert!(m.lock(5) == Acquire::Blocked);
    assert_eq!(m.unlock(), Some(2));
    assert_eq!(m.unlock(), Some(5));
    assert_eq!(m.unlock(), None);
    assert!(m.lock(7) == Acquire::Acquired);
}

#[test]
fn semaphore_counts() {
    let mut s = Semaphore::new(1);
    assert!(s.down(1) == Acquire::Acquired);
    assert!(s.down(2) == Acquire::Blocked);
    assert!(s.down(3) == Acquire::Blocked);
    assert_eq!(s.up(), Some(2));
    assert_eq!(s.up(), Some(3));
    assert_eq!(s.up(), None);
    assert!(s.down(4) == Acquire::Acquired);
}

#[test]
fn pipe_moves_bytes_in_order() {
    let mut p = PipeBuffer::new();
    p.set_write_end();
    assert_eq!(p.available_write(), BUFFER_SIZE);
    assert!(pipe_write_step(&mut p, b"hello") == PipeStep::Done(5));
    assert_eq!(p.available_read(), 5);
    let mut dest = [0u8; 3];
    assert!(pipe_read_step(&mut p, &mut dest, 0) == PipeStep::Continue(3));
    assert_eq!(&dest, b"hel");
    assert_eq!(p.read_byte(), b'l');
    let mut dest2 = [0u8; 8];
    assert!(pipe_read_step(&mut p, &mut dest2, 4) == PipeStep::Continue(5));
    assert_eq!(dest2[0], b'o');
    assert!(pipe_read_step(&mut p, &mut dest2, 5) == PipeStep::Suspend);
    p.close_write_end();
    assert!(p.all_write_ends_closed());
    assert!(pipe_read_step(&mut p, &mut dest2, 5) == PipeStep::Done(5));
}

#[test]
fn pipe_full_writer_waits() {
    let mut p = PipeBuffer::new();
    let big = [1u8; 40];
    assert!(pipe_write_step(&mut p, &big) == PipeStep::Continue(BUFFER_SIZE));
    assert_eq!(p.available_write(), 0);
    assert!(pipe_write_step(&mut p, &big) == PipeStep::Suspend);
}

#[test]
fn segments_cover_whole_pages() {
    let s = Segment::new_identical(0x1001..0x3001);
    assert!(s.identical && !s.user_accessible);
    assert_eq!(s.vpn_range(), 1..4);
    let u = Segment::new_user_accessible(0x2000..0x4000);
    assert!(!u.identical && u.user_accessible);
    assert_eq!(u.vpn_range(), 2..4);
    let l = LogicalSegment { virtual_range: 0..1, identical: true, user_visible: false };
    assert_eq!(l.virtual_page_range(), 0..1);
}

#[test]
fn dma_pages_in_order() {
    let mut a = DMAAllocator::new(0x1001, 0x9000);
    assert_eq!(a.allocate(2), 2);
    assert_eq!(VirtioHal::dma_alloc(&mut a, 1), 4 * 4096);
    assert_eq!(VirtioHal::phys_to_virt(77), 77);
}

#[test]
fn timer_values() {
    assert_eq!(clock_ms(12500 * 3 + 7), 3);
    assert_eq!(next_timer_deadline(100), 100 + 125000);
    assert!(!sleep_finished(10, 5, 14));
    assert!(sleep_finished(10, 5, 15));
}

#[test]
fn wait_answers() {
    assert!(!wait_over(0));
    assert!(wait_over(1));
}

#[test]
fn console_files() {
    let mut buf = [0u8; 1];
    assert_eq!(Stdin.read(b'q', &mut buf), 1);
    assert_eq!(buf[0], b'q');
    assert!(Stdin.file_type() == FileType::STDIN);
    assert_eq!(Stdout.write(b"abc"), 3);
    assert!(Stdout.file_type() == FileType::STDOUT);
    assert!(Context::zero().x.iter().all(|&r| r == 0));
}

#[test]
fn flat_fs_files() {
    let mut dev = MemoryBlockDevice::new(16 + 3 * 1024);
    assert_eq!(flat_fs::files(&dev).len(), 256);
    assert!(flat_fs::open(&mut dev, "a.txt", false).is_none());
    let mut f: File = flat_fs::open(&mut dev, "a.txt", true).unwrap();
    assert_eq!(f.i, 0);
    assert_eq!(f.name(), "a.txt");
    let data: Vec<u8> = (0..1500u32).map(|i| (i % 7) as u8).collect();
    f._write(&mut dev, &data);
    assert_eq!(f._read(&dev), data);
    let g = flat_fs::open(&mut dev, "a.txt", false).unwrap();
    assert_eq!(g.i, 0);
    assert_eq!(g.dir_entry.file_size, 1500);
    assert_eq!(g._read(&dev), data);
    let h = flat_fs::open(&mut dev, "b.txt", true).unwrap();
    assert_eq!(h.i, 1);
    assert!(h._read(&dev).is_empty());
}

#[test]
fn flat_fs_write_keeps_other_file() {
    let mut dev = MemoryBlockDevice::new(16 + 3 * 1024);
    let mut a: File = flat_fs::open(&mut dev, "a", true).unwrap();
    let mut b: File = flat_fs::open(&mut dev, "b", true).unwrap();
    let data_a: Vec<u8> = (0..700u32).map(|i| (i % 11) as u8).collect();
    a._write(&mut dev, &data_a);
    let data_b: Vec<u8> = vec![9u8; 1030];
    b._write(&mut dev, &data_b);
    assert_eq!(a._read(&dev), data_a);
    assert_eq!(b._read(&dev), data_b);
    // The tail of the last block of `b` holds the bytes of the full block before it.
    let mut block = [0u8; 512];
    dev.read_block(16 + 1024 + 2, &mut block);
    assert!(block[6..].iter().all(|&x| x == 9));
}

#[test]
fn file_read_fills_buffer() {
    let mut bufs = vec![vec![7u8; 5]];
    assert_eq!(read_into_buffers(b"abc", &mut bufs), 3);
    assert_eq!(bufs[0], vec![b'a', b'b', b'c', 7, 7]);
    let mut empty_file = vec![vec![], vec![1u8, 2]];
    assert_eq!(read_into_buffers(b"", &mut empty_file), 0);
    assert_eq!(empty_file, vec![vec![], vec![1u8, 2]]);
}

#[test]
fn file_write_joins_buffers() {
    let bufs = vec![b"ab".to_vec(), vec![], b"c".to_vec()];
    assert_eq!(join_buffers(&bufs), b"abc".to_vec());
    assert!(join_buffers(&vec![]).is_empty());
}

#[test]
fn process_threads_and_waits() {
    let mut p = Process::new();
    assert_eq!(p.main_task().tid, Some(0));
    assert_eq!(waittid(&p, 0), 0);
    let t = thread_create(&mut p);
    assert_eq!(t, 1);
    assert_eq!(p.tasks.get(1).unwrap().tid, Some(1));
    p.tasks.get_mut(1).unwrap().is_exited = true;
    assert_eq!(waittid(&p, 1), 1);

    let mut processes: IDAllocDict<Process> = IDAllocDict::new();
    let a = processes.insert(Process::new());
    let b = processes.insert(Process::new());
    processes.get_mut(b).unwrap().pid = Some(b);
    assert_eq!(getpid(processes.get(b).unwrap()), 1);
    assert_eq!(waitpid(&mut processes, a), 0);
    assert!(processes.get(a).is_some());
    processes.get_mut(a).unwrap().is_exited = true;
    assert_eq!(waitpid(&mut processes, a), 1);
    assert!(processes.get(a).is_none());
    // The reaped number is handed out again.
    assert_eq!(processes.insert(Process::new()), a);
}

#[test]
fn process_locks_and_semaphores() {
    let mut p = Process::new();
    let m = mutex_create(&mut p);
    assert_eq!(m, 0);
    assert!(mutex_lock(&mut p, m, 5) == Acquire::Acquired);
    assert!(mutex_lock(&mut p, m, 6) == Acquire::Blocked);
    assert_eq!(mutex_unlock(&mut p, m), Some(6));
    assert_eq!(mutex_unlock(&mut p, m), None);
    assert!(mutex_lock(&mut p, m, 7) == Acquire::Acquired);

    let s = semaphore_create(&mut p, 1);
    assert_eq!(s, 0);
    assert!(semaphore_down(&mut p, s, 3) == Acquire::Acquired);
    assert!(semaphore_down(&mut p, s, 4) == Acquire::Blocked);
    assert_eq!(semaphore_up(&mut p, s), Some(4));
    assert_eq!(semaphore_up(&mut p, s), None);
}

#[test]
fn exit_then_wait() {
    let mut p = Process::new();
    let t = thread_create(&mut p);
    exit_task(&mut p, t);
    assert_eq!(waittid(&p, t), 1);
    assert!(!p.is_exited);
    exit_task(&mut p, 0);
    assert!(p.is_exited);
    let mut processes: IDAllocDict<Process> = IDAllocDict::new();
    let pid = processes.insert(p);
    assert_eq!(waitpid(&mut processes, pid), 1);
}

#[test]
fn chapter_makefiles() {
    let mut ch = initial_ch();
    assert_eq!(ch[0].link_arg, "-Ttext=0x80200000");
    assert!(!ch[0].nightly);
    assert_eq!(ch[5].dir, "../ch5");
    assert!(ch.iter().all(|m| m.users.is_empty()));
    init(&mut ch);
    assert!(ch[0].users.is_empty() && ch[1].users.is_empty());
    let bins: Vec<&str> = ch[2].users.iter().map(|u| u.bin).collect();
    assert_eq!(bins, vec!["hello_world", "priv_inst", "store_fault"]);
    assert!(ch[2].users.iter().all(|u| u.enrty == Some(0x80400000)));
    let entries: Vec<Option<usize>> = ch[3].users.iter().map(|u| u.enrty).collect();
    assert_eq!(entries, vec![Some(0x80600000), Some(0x80620000), Some(0x80640000)]);
    assert!(ch[4].users.iter().all(|u| u.enrty.is_none()));
    let bins5: Vec<&str> = ch[5].users.iter().map(|u| u.bin).collect();
    assert_eq!(bins5, vec!["initproc", "shell", "fork", "sleep"]);
}

#[test]
fn firmware_traps() {
    let mut cx = Context::zero();
    cx.x[17] = 3;
    cx.x[10] = 0x141;
    assert!(trap_handler(MachineCause::SupervisorEnvCall, &cx) == FirmwareAction::Serve(SbiCall::PutChar(0x41)));
    cx.x[17] = 0;
    assert!(trap_handler(MachineCause::SupervisorEnvCall, &cx) == FirmwareAction::Serve(SbiCall::SetTimer(0x141)));
    cx.x[17] = 1;
    assert!(trap_handler(MachineCause::SupervisorEnvCall, &cx) == FirmwareAction::Serve(SbiCall::GetTime));
    cx.x[17] = 2;
    assert!(trap_handler(MachineCause::SupervisorEnvCall, &cx) == FirmwareAction::Serve(SbiCall::Shutdown));
    cx.x[17] = 4;
    assert!(trap_handler(MachineCause::SupervisorEnvCall, &cx) == FirmwareAction::Serve(SbiCall::GetChar));
    cx.x[17] = 9;
    assert!(trap_handler(MachineCause::SupervisorEnvCall, &cx) == FirmwareAction::Serve(SbiCall::Unknown));
    assert!(trap_handler(MachineCause::MachineTimer, &cx) == FirmwareAction::ForwardTimer);
    assert!(trap_handler(MachineCause::Other, &cx) == FirmwareAction::Ignore);
    sbi_return(&mut cx, SbiCall::GetTime, 77);
    assert_eq!(cx.x[10], 77);
    sbi_return(&mut cx, SbiCall::PutChar(1), 5);
    assert_eq!(cx.x[10], 77);
}

#[test]
fn kernel_traps() {
    let mut cx = TrapContext { x: [0; 32], sepc: 0x1000 };
    cx.x[17] = 64;
    cx.x[10] = 1;
    cx.x[11] = 2;
    cx.x[12] = 3;
    assert!(exception_handler(UserCause::UserEnvCall, &mut cx) == KernelAction::Syscall(64, 1, 2, 3));
    assert_eq!(cx.sepc, 0x1004);
    syscall_return(&mut cx, Ok(9));
    assert_eq!(cx.x[10], 9);
    syscall_return(&mut cx, Err(999));
    assert_eq!(cx.x[10], 9);
    assert!(exception_handler(UserCause::StorePageFault, &mut cx) == KernelAction::Kill);
    assert!(exception_handler(UserCause::IllegalInstruction, &mut cx) == KernelAction::Kill);
    assert!(exception_handler(UserCause::SupervisorTimer, &mut cx) == KernelAction::Tick);
    assert!(exception_handler(UserCause::Other, &mut cx) == KernelAction::Ignore);
    assert_eq!(cx.sepc, 0x1004);
}

#[test]
fn pipe_loops() {
    let mut p = PipeBuffer::new();
    p.set_write_end();
    assert!(pipe_write(&mut p, b"abcde", 0) == (PipeStep::Done(5), 5));
    let mut dest = [0u8; 2];
    assert!(pipe_read(&mut p, &mut dest) == PipeStep::Done(2));
    assert_eq!(&dest, b"ab");
    assert_eq!(p.available_read(), 3);
    let mut big_dest = [0u8; 8];
    assert!(pipe_read(&mut p, &mut big_dest) == PipeStep::Done(3));
    assert_eq!(&big_dest[..3], b"cde");
    assert!(pipe_read(&mut p, &mut big_dest) == PipeStep::Suspend);
    // A write longer than the room goes in stretch by stretch, each byte once.
    let src: Vec<u8> = (0..40u8).collect();
    let (step, w) = pipe_write(&mut p, &src, 0);
    assert!(step == PipeStep::Suspend);
    assert_eq!(w, BUFFER_SIZE);
    let mut out = [0u8; 64];
    assert!(pipe_read(&mut p, &mut out) == PipeStep::Done(BUFFER_SIZE));
    assert_eq!(&out[..BUFFER_SIZE], &src[..BUFFER_SIZE]);
    assert!(pipe_write(&mut p, &src, w) == (PipeStep::Done(40), 40));
    p.close_write_end();
    assert!(pipe_read(&mut p, &mut out) == PipeStep::Done(8));
    assert_eq!(&out[..8], &src[32..]);
    assert!(pipe_read(&mut p, &mut out) == PipeStep::Done(0));
}

#[test]
fn syscall_numbers_decode() {
    let nums = SyscallNumbers {
        read: 100,
        write: 101,
        exit: 102,
        yield_: 103,
        get_time: 104,
        getpid: 105,
        fork: 106,
        exec_: 107,
        waitpid: 108,
        putchar: 109,
        getchar: 110,
        open_: 111,
        close: 112,
        pipe: 113,
        thread_create: 114,
        waittid: 115,
        mutex_create: 116,
        mutex_lock: 117,
        mutex_unlock: 118,
        semaphore_create: 119,
        semaphore_down: 120,
        semaphore_up: 121,
        listen: 122,
        accept: 123,
        socket: 124,
        bind: 125,
    };
    assert!(syscall_dispatch(nums.write, [1, 2, 3], &nums) == Ok(Syscall::Write(1, 2, 3)));
    assert!(syscall_dispatch(nums.exit, [1, 2, 3], &nums) == Ok(Syscall::Exit));
    assert!(syscall_dispatch(nums.open_, [4, 5, 1], &nums) == Ok(Syscall::Open(4, 5, true)));
    assert!(syscall_dispatch(nums.socket, [0, 0, 0], &nums) == Ok(Syscall::Socket(false)));
    assert!(syscall_dispatch(nums.bind, [3, 0x1_0050, 0], &nums) == Ok(Syscall::Bind(3, 0x50)));
    assert!(syscall_dispatch(7, [0, 0, 0], &nums) == Err(7));
}

#[test]
fn link_app_text_lists_every_program() {
    let mut ch = initial_ch();
    assert!(create_link_app(&ch[2]).is_none());
    init(&mut ch);
    let text = create_link_app(&ch[2]).unwrap();
    let mut expected = String::new();
    expected.push_str("# created by crate make\n    .section .data\n    .globl _num_app\n_num_app:\n    .quad 3\n");
    for i in 0..3 {
        expected.push_str(&format!("    .quad app_{}_start\n", i));
    }
    expected.push_str("    .quad app_2_end\n");
    expected.push_str("\n    .globl _app_names\n_app_names:\n");
    for bin in ["hello_world", "priv_inst", "store_fault"] {
        expected.push_str(&format!("    .string \"{}\"\n", bin));
    }
    for (i, bin) in ["hello_world", "priv_inst", "store_fault"].iter().enumerate() {
        expected.push_str(&format!(
            "\n    .section .data\n    .globl app_{0}_start\n    .globl app_{0}_end\napp_{0}_start:\n    .incbin \"../user/target/riscv64gc-unknown-none-elf/release/{1}\"\napp_{0}_end:\n",
            i, bin
        ));
    }
    assert_eq!(String::from_utf8(text).unwrap(), expected);
}

#[test]
fn link_app_counts_past_nine() {
    let users: Vec<User> = (0..12).map(|_| User { bin: "p", enrty: None }).collect();
    let ch = Makefile { link_arg: "-Tsrc/linker.ld", nightly: true, dir: "../ch9", users };
    let text = String::from_utf8(create_link_app(&ch).unwrap()).unwrap();
    assert!(text.contains("_num_app:\n    .quad 12\n"));
    assert!(text.contains("    .quad app_11_start\n    .quad app_11_end\n"));
    assert!(text.ends_with("app_11_end:\n"));
}

fn cargo_command(nightly: bool, link_arg: Option<&str>, bin: Option<&str>) -> String {
    let nightly = if nightly { " +nightly" } else { "" };
    let config = match link_arg {
        Some(arg) => format!(" --config 'target.riscv64gc-unknown-none-elf.rustflags = [\"-Clink-arg={}\"]'", arg),
        None => String::new(),
    };
    let bin = match bin {
        Some(bin) => format!(" --bin {}", bin),
        None => String::new(),
    };
    format!("cargo{} build{} --target riscv64gc-unknown-none-elf{} --release", nightly, config, bin)
}

#[test]
fn build_command_lines() {
    assert_eq!(
        String::from_utf8(build(false, None, None)).unwrap(),
        "cargo build --target riscv64gc-unknown-none-elf --release"
    );
    assert_eq!(
        String::from_utf8(build(true, Some(b"-Tsrc/linker.ld"), Some("shell"))).unwrap(),
        cargo_command(true, Some("-Tsrc/linker.ld"), Some("shell"))
    );
    assert_eq!(String::from_utf8(link_arg(&LinkArg::Address(0x80620000))).unwrap(), "-Ttext=80620000");
    assert_eq!(String::from_utf8(link_arg(&LinkArg::Address(0xabc))).unwrap(), "-Ttext=abc");
    assert_eq!(String::from_utf8(link_arg(&LinkArg::Address(0))).unwrap(), "-Ttext=0");
    assert_eq!(String::from_utf8(link_arg(&LinkArg::File("src/linker.ld"))).unwrap(), "-Tsrc/linker.ld");
}

#[test]
fn makefile_of_each_chapter() {
    let mut ch = initial_ch();
    init(&mut ch);
    let tail = "\n\t@rust-objcopy target/riscv64gc-unknown-none-elf/release/kernel --strip-all -O binary target/riscv64gc-unknown-none-elf/release/kernel.bin\n\t@qemu-system-riscv64 -machine virt -nographic -bios ../rustsbi-qemu.bin -device loader,file=target/riscv64gc-unknown-none-elf/release/kernel.bin,addr=0x80200000\n";
    let ch0 = String::from_utf8(create_makefile(&ch[0])).unwrap();
    assert_eq!(ch0, format!("run:\n\t@\n\t@cargo clean\n\t@{}{}", cargo_command(false, Some("-Ttext=0x80200000"), None), tail));
    let ch3 = String::from_utf8(create_makefile(&ch[3])).unwrap();
    let mut users = String::from("cd ../user && cargo clean ");
    for (bin, entry) in [("00write_a", "80600000"), ("01write_b", "80620000"), ("02write_c", "80640000")] {
        users.push_str(&format!("&& {} ", cargo_command(true, Some(&format!("-Ttext={}", entry)), Some(bin))));
    }
    assert_eq!(ch3, format!("run:\n\t@{}\n\t@cargo clean\n\t@{}{}", users, cargo_command(true, Some("-Tsrc/linker.ld"), None), tail));
    let ch5 = String::from_utf8(create_makefile(&ch[5])).unwrap();
    let mut users = String::from("cd ../user && cargo clean ");
    for bin in ["initproc", "shell", "fork", "sleep"] {
        users.push_str(&format!("&& {} ", cargo_command(true, None, Some(bin))));
    }
    assert_eq!(ch5, format!("run:\n\t@{}\n\t@cargo clean\n\t@{}{}", users, cargo_command(true, Some("-Tsrc/linker.ld"), None), tail));
}

#[test]
fn values_mut_walks_numbers_in_order() {
    let mut d: IDAllocDict<u32> = IDAllocDict::new();
    let a = d.insert(10);
    let b = d.insert(20);
    let c = d.insert(30);
    d.remove(b);
    *d.values_mut(1).unwrap() += 5;
    *d.values_mut(0).unwrap() += 1;
    assert!(d.values_mut(2).is_none());
    assert_eq!(*d.get(a).unwrap(), 11);
    assert_eq!(*d.get(c).unwrap(), 35);
    assert!(d.get(b).is_none());
}
