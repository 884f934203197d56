use crate::kernel::{Makefile, User};
use crate::link_app::{push_bytes, push_str, TARGET};
use vstd::prelude::*;
use vstd::string::StringSliceAdditionalSpecFns;

verus! {

/// The firmware image QEMU boots with.
pub const BOOTLOADER: &'static str = "../rustsbi-qemu.bin";

/// The address the kernel image is loaded at.
pub const KERNEL_ENTRY: &'static str = "0x80200000";

/// The lower-case hexadecimal digit for `d`, below 16, as an ASCII byte.
pub open spec fn hex_digit(d: nat) -> u8 {
    if d < 10 {
        (48 + d) as u8
    } else {
        (87 + d) as u8
    }
}

/// The lower-case hexadecimal digits of `n`, most significant first, without a prefix.
pub open spec fn hex(n: nat) -> Seq<u8>
    decreases n,
{
    if n < 16 {
        seq![hex_digit(n)]
    } else {
        hex(n / 16).push(hex_digit(n % 16))
    }
}

/// How a program is placed when it is linked: at a start address, or by a linker script.
pub enum LinkArg {
    Address(usize),
    File(&'static str),
}

/// The linker argument for `a`.
pub open spec fn link_arg_text(a: LinkArg) -> Seq<u8> {
    match a {
        LinkArg::Address(x) => "-Ttext=".spec_bytes() + hex(x as nat),
        LinkArg::File(f) => "-T".spec_bytes() + f.spec_bytes(),
    }
}

/// The start of a cargo build command, on the nightly toolchain when `nightly`.
pub open spec fn build_head(nightly: bool) -> Seq<u8> {
    "cargo".spec_bytes() + (if nightly {
        " +nightly".spec_bytes()
    } else {
        Seq::empty()
    }) + " build".spec_bytes()
}

/// The option that passes the linker argument `a` to rustc for the target.
pub open spec fn config_text(a: Seq<u8>) -> Seq<u8> {
    " --config 'target.".spec_bytes() + TARGET.spec_bytes() + ".rustflags = [\"-Clink-arg=".spec_bytes() + a
        + "\"]'".spec_bytes()
}

/// The end of a cargo build command: the target, the binary `bin` when given, release mode.
pub open spec fn build_tail(bin: Option<Seq<u8>>) -> Seq<u8> {
    " --target ".spec_bytes() + TARGET.spec_bytes() + (match bin {
        Some(b) => " --bin ".spec_bytes() + b,
        None => Seq::empty(),
    }) + " --release".spec_bytes()
}

/// The cargo command that builds in release mode for the target, on the nightly toolchain
/// when `nightly`, with the linker argument `link_arg` and only the binary `bin` when given.
pub open spec fn build_text(nightly: bool, link_arg: Option<Seq<u8>>, bin: Option<Seq<u8>>) -> Seq<u8> {
    build_head(nightly) + (match link_arg {
        Some(a) => config_text(a),
        None => Seq::empty(),
    }) + build_tail(bin)
}

/// The linker argument of a user program: its start address when it has a fixed one.
pub open spec fn user_link_arg(u: User) -> Option<Seq<u8>> {
    match u.enrty {
        Some(e) => Some(link_arg_text(LinkArg::Address(e))),
        None => None,
    }
}

/// The commands that build each of `users`, each after `&& ` and followed by a space.
pub open spec fn user_builds(users: Seq<User>) -> Seq<u8>
    decreases users.len(),
{
    if users.len() == 0 {
        Seq::empty()
    } else {
        user_builds(users.drop_last()) + "&& ".spec_bytes() + build_text(
            true,
            user_link_arg(users.last()),
            Some(users.last().bin.spec_bytes()),
        ) + " ".spec_bytes()
    }
}

/// The command that builds the user programs, empty when there are none.
pub open spec fn build_users_text(users: Seq<User>) -> Seq<u8> {
    if users.len() == 0 {
        Seq::empty()
    } else {
        "cd ../user && cargo clean ".spec_bytes() + user_builds(users)
    }
}

/// The steps after the kernel is built: strip it to a binary, then boot it in QEMU.
pub open spec fn run_tail_text() -> Seq<u8> {
    "\n\t@rust-objcopy target/".spec_bytes() + TARGET.spec_bytes()
        + "/release/kernel --strip-all -O binary target/".spec_bytes() + TARGET.spec_bytes()
        + "/release/kernel.bin\n\t@qemu-system-riscv64 -machine virt -nographic -bios ".spec_bytes()
        + BOOTLOADER.spec_bytes() + " -device loader,file=target/".spec_bytes() + TARGET.spec_bytes()
        + "/release/kernel.bin,addr=".spec_bytes() + KERNEL_ENTRY.spec_bytes() + "\n".spec_bytes()
}

/// The Makefile of chapter `ch`: its `run` target builds the user programs, then the kernel
/// with the chapter's linker argument, and boots it.
pub open spec fn makefile_text(ch: Makefile) -> Seq<u8> {
    "run:\n\t@".spec_bytes() + build_users_text(ch.users@) + "\n\t@cargo clean\n\t@".spec_bytes()
        + build_text(ch.nightly, Some(ch.link_arg.spec_bytes()), None) + run_tail_text()
}

/// Appends the hexadecimal digits of `n` to `out`.
fn push_hex(out: &mut Vec<u8>, n: usize)
    ensures
        final(out)@ == old(out)@ + hex(n as nat),
    decreases n,
{
    if n >= 16 {
        push_hex(out, n / 16);
    }
    let d = n % 16;
    let c: u8 = if d < 10 {
        (48 + d) as u8
    } else {
        (87 + d) as u8
    };
    out.push(c);
    proof {
        if n >= 16 {
            assert(old(out)@ + hex(n as nat) =~= old(out)@ + hex((n / 16) as nat) + seq![hex_digit((n % 16) as nat)]);
        } else {
            assert(old(out)@ + hex(n as nat) =~= old(out)@.push(hex_digit(n as nat)));
        }
    }
}

/// The linker argument for `a`.
pub fn link_arg(a: &LinkArg) -> (r: Vec<u8>)
    ensures
        r@ == link_arg_text(*a),
{
    let mut out: Vec<u8> = Vec::new();
    match a {
        LinkArg::Address(x) => {
            push_str(&mut out, "-Ttext=");
            push_hex(&mut out, *x);
        },
        LinkArg::File(f) => {
            push_str(&mut out, "-T");
            push_str(&mut out, f);
        },
    }
    out
}

/// Appends ` --config '...rustflags = ["-Clink-arg=<a>"]'`.
fn push_config(out: &mut Vec<u8>, a: &[u8])
    ensures
        final(out)@ == old(out)@ + config_text(a@),
{
    let ghost o = out@;
    push_str(out, " --config 'target.");
    push_str(out, TARGET);
    push_str(out, ".rustflags = [\"-Clink-arg=");
    push_bytes(out, a);
    push_str(out, "\"]'");
    assert(out@ =~= o + config_text(a@));
}

/// Appends the cargo command of [`build_text`] to `out`.
fn push_build(out: &mut Vec<u8>, nightly: bool, link_arg: Option<&[u8]>, bin: Option<&str>)
    ensures
        final(out)@ == old(out)@ + build_text(
            nightly,
            match link_arg {
                Some(a) => Some(a@),
                None => None,
            },
            match bin {
                Some(b) => Some(b.spec_bytes()),
                None => None,
            },
        ),
{
    let ghost o = out@;
    push_str(out, "cargo");
    if nightly {
        push_str(out, " +nightly");
    }
    push_str(out, " build");
    let ghost o1 = out@;
    if let Some(a) = link_arg {
        push_config(out, a);
    }
    let ghost o2 = out@;
    push_str(out, " --target ");
    push_str(out, TARGET);
    if let Some(b) = bin {
        push_str(out, " --bin ");
        push_str(out, b);
    }
    push_str(out, " --release");
    proof {
        let p0 = build_head(nightly);
        let p1 = match link_arg {
            Some(a) => config_text(a@),
            None => Seq::<u8>::empty(),
        };
        let p2 = build_tail(match bin {
            Some(b) => Some(b.spec_bytes()),
            None => None,
        });
        assert(o1 =~= o + p0);
        assert(o2 =~= o1 + p1);
        assert(out@ =~= o2 + p2);
        vstd::seq_lib::lemma_concat_associative(o, p0, p1);
        vstd::seq_lib::lemma_concat_associative(o, p0 + p1, p2);
    }
}

/// The cargo command that builds in release mode for the target, on the nightly toolchain
/// when `nightly`, with the linker argument `link_arg` and only the binary `bin` when given.
pub fn build(nightly: bool, link_arg: Option<&[u8]>, bin: Option<&str>) -> (r: Vec<u8>)
    ensures
        r@ == build_text(
            nightly,
            match link_arg {
                Some(a) => Some(a@),
                None => None,
            },
            match bin {
                Some(b) => Some(b.spec_bytes()),
                None => None,
            },
        ),
{
    let mut out: Vec<u8> = Vec::new();
    push_build(&mut out, nightly, link_arg, bin);
    out
}

/// Appends the command that builds the user program `user`, after `&& ` and followed by a space.
fn push_user_build(out: &mut Vec<u8>, user: &User)
    ensures
        final(out)@ == old(out)@ + ("&& ".spec_bytes() + build_text(true, user_link_arg(*user), Some(user.bin.spec_bytes()))
            + " ".spec_bytes()),
{
    let ghost o = out@;
    push_str(out, "&& ");
    match user.enrty {
        Some(e) => {
            let arg = link_arg(&LinkArg::Address(e));
            push_build(out, true, Some(arg.as_slice()), Some(user.bin));
        },
        None => {
            push_build(out, true, None, Some(user.bin));
        },
    }
    push_str(out, " ");
    assert(out@ =~= o + ("&& ".spec_bytes() + build_text(true, user_link_arg(*user), Some(user.bin.spec_bytes()))
        + " ".spec_bytes()));
}

/// The text of the Makefile of chapter `ch`.
pub fn create_makefile(ch: &Makefile) -> (r: Vec<u8>)
    ensures
        r@ == makefile_text(*ch),
{
    let mut f: Vec<u8> = Vec::new();
    push_str(&mut f, "run:\n\t@");
    let ghost o = f@;
    let n = ch.users.len();
    if n > 0 {
        push_str(&mut f, "cd ../user && cargo clean ");
        let ghost o1 = f@;
        let mut i: usize = 0;
        while i < n
            invariant
                i <= n,
                n == ch.users@.len(),
                f@ == o1 + user_builds(ch.users@.take(i as int)),
            decreases n - i,
        {
            push_user_build(&mut f, &ch.users[i]);
            i += 1;
            proof {
                let us = ch.users@.take(i as int);
                assert(us.drop_last() =~= ch.users@.take(i - 1));
                assert(us.last() == ch.users@[i - 1]);
                let u = us.last();
                vstd::seq_lib::lemma_concat_associative(
                    o1,
                    user_builds(us.drop_last()),
                    "&& ".spec_bytes() + build_text(true, user_link_arg(u), Some(u.bin.spec_bytes())) + " ".spec_bytes(),
                );
            }
        }
        proof {
            assert(ch.users@.take(n as int) =~= ch.users@);
        }
    }
    assert(f@ =~= o + build_users_text(ch.users@));
    let ghost o2 = f@;
    push_str(&mut f, "\n\t@cargo clean\n\t@");
    push_build(&mut f, ch.nightly, Some(ch.link_arg.as_bytes()), None);
    let ghost o3 = f@;
    push_str(&mut f, "\n\t@rust-objcopy target/");
    push_str(&mut f, TARGET);
    push_str(&mut f, "/release/kernel --strip-all -O binary target/");
    push_str(&mut f, TARGET);
    push_str(&mut f, "/release/kernel.bin\n\t@qemu-system-riscv64 -machine virt -nographic -bios ");
    push_str(&mut f, BOOTLOADER);
    push_str(&mut f, " -device loader,file=target/");
    push_str(&mut f, TARGET);
    push_str(&mut f, "/release/kernel.bin,addr=");
    push_str(&mut f, KERNEL_ENTRY);
    push_str(&mut f, "\n");
    proof {
        assert(f@ =~= o3 + run_tail_text());
        assert(f@ =~= makefile_text(*ch));
    }
    f
}

} // verus!
