use crate::kernel::{Makefile, User};
use vstd::prelude::*;
use vstd::string::StringSliceAdditionalSpecFns;

verus! {

/// The target triple the user programs are built for.
pub const TARGET: &'static str = "riscv64gc-unknown-none-elf";

/// The decimal digits of `n`, most significant first, as ASCII bytes.
pub open spec fn decimal(n: nat) -> Seq<u8>
    decreases n,
{
    if n < 10 {
        seq![(48 + n) as u8]
    } else {
        decimal(n / 10).push((48 + n % 10) as u8)
    }
}

/// The lines `.quad app_<i>_start` for `i` below `k`.
pub open spec fn app_start_lines(k: nat) -> Seq<u8>
    decreases k,
{
    if k == 0 {
        Seq::empty()
    } else {
        app_start_lines((k - 1) as nat) + "    .quad app_".spec_bytes() + decimal((k - 1) as nat)
            + "_start\n".spec_bytes()
    }
}

/// The lines `.string "<bin>"`, one for each of `bins`.
pub open spec fn app_name_lines(bins: Seq<Seq<u8>>) -> Seq<u8>
    decreases bins.len(),
{
    if bins.len() == 0 {
        Seq::empty()
    } else {
        app_name_lines(bins.drop_last()) + "    .string \"".spec_bytes() + bins.last() + "\"\n".spec_bytes()
    }
}

/// The opening lines of the data section of program `i`, which declare its labels.
pub open spec fn app_section_head(i: nat) -> Seq<u8> {
    "\n    .section .data\n    .globl app_".spec_bytes() + decimal(i) + "_start\n    .globl app_".spec_bytes()
        + decimal(i) + "_end\napp_".spec_bytes()
}

/// The start label of program `i` and the line that includes its binary `bin`, up to the name.
pub open spec fn app_section_body(i: nat, bin: Seq<u8>) -> Seq<u8> {
    decimal(i) + "_start:\n    .incbin \"../user/target/".spec_bytes() + TARGET.spec_bytes()
        + "/release/".spec_bytes() + bin
}

/// The end of the include line and the end label of program `i`.
pub open spec fn app_section_tail(i: nat) -> Seq<u8> {
    "\"\napp_".spec_bytes() + decimal(i) + "_end:\n".spec_bytes()
}

/// The data section that includes program `i`, whose binary is named `bin`.
pub open spec fn app_section(i: nat, bin: Seq<u8>) -> Seq<u8> {
    app_section_head(i) + app_section_body(i, bin) + app_section_tail(i)
}

/// The data sections of all of `bins`, in order.
pub open spec fn app_sections(bins: Seq<Seq<u8>>) -> Seq<u8>
    decreases bins.len(),
{
    if bins.len() == 0 {
        Seq::empty()
    } else {
        app_sections(bins.drop_last()) + app_section((bins.len() - 1) as nat, bins.last())
    }
}

/// The assembly file that links the user programs `bins` into the kernel: their number, the
/// table of their start and end addresses, the table of their names, and one section that
/// includes each binary.
pub open spec fn link_app_text(bins: Seq<Seq<u8>>) -> Seq<u8> {
    "# created by crate make\n    .section .data\n    .globl _num_app\n_num_app:\n    .quad ".spec_bytes()
        + decimal(bins.len()) + "\n".spec_bytes() + app_start_lines(bins.len())
        + "    .quad app_".spec_bytes() + decimal((bins.len() - 1) as nat) + "_end\n".spec_bytes()
        + "\n    .globl _app_names\n_app_names:\n".spec_bytes() + app_name_lines(bins) + app_sections(bins)
}

/// The names of the binaries of `users`, as bytes.
pub open spec fn user_bins(users: Seq<User>) -> Seq<Seq<u8>> {
    users.map_values(|u: User| u.bin.spec_bytes())
}

/// Appends the bytes of `b` to `out`.
pub(crate) fn push_bytes(out: &mut Vec<u8>, b: &[u8])
    ensures
        final(out)@ == old(out)@ + b@,
{
    let mut i: usize = 0;
    while i < b.len()
        invariant
            i <= b@.len(),
            out@ == old(out)@ + b@.take(i as int),
        decreases b@.len() - i,
    {
        out.push(b[i]);
        i += 1;
        assert(b@.take(i as int) =~= b@.take(i - 1).push(b@[i - 1]));
    }
    assert(b@.take(b@.len() as int) =~= b@);
}

/// Appends the bytes of the text `s` to `out`.
pub(crate) fn push_str(out: &mut Vec<u8>, s: &str)
    ensures
        final(out)@ == old(out)@ + s.spec_bytes(),
{
    push_bytes(out, s.as_bytes());
}

/// Appends the decimal digits of `n` to `out`.
pub(crate) fn push_decimal(out: &mut Vec<u8>, n: usize)
    ensures
        final(out)@ == old(out)@ + decimal(n as nat),
    decreases n,
{
    if n >= 10 {
        push_decimal(out, n / 10);
    }
    out.push((48 + n % 10) as u8);
    proof {
        if n >= 10 {
            assert(old(out)@ + decimal(n as nat) =~= old(out)@ + decimal((n / 10) as nat) + seq![(48 + n % 10) as u8]);
        } else {
            assert(old(out)@ + decimal(n as nat) =~= old(out)@.push((48 + n % 10) as u8));
        }
    }
}

/// Appends the data section that includes program `i`, whose binary is named `bin`.
fn push_app_section(out: &mut Vec<u8>, i: usize, bin: &str)
    ensures
        final(out)@ == old(out)@ + app_section(i as nat, bin.spec_bytes()),
{
    let ghost o = out@;
    push_str(out, "\n    .section .data\n    .globl app_");
    push_decimal(out, i);
    push_str(out, "_start\n    .globl app_");
    push_decimal(out, i);
    push_str(out, "_end\napp_");
    assert(out@ =~= o + app_section_head(i as nat));
    let ghost o1 = out@;
    push_decimal(out, i);
    push_str(out, "_start:\n    .incbin \"../user/target/");
    push_str(out, TARGET);
    push_str(out, "/release/");
    push_str(out, bin);
    assert(out@ =~= o1 + app_section_body(i as nat, bin.spec_bytes()));
    let ghost o2 = out@;
    push_str(out, "\"\napp_");
    push_decimal(out, i);
    push_str(out, "_end:\n");
    assert(out@ =~= o2 + app_section_tail(i as nat));
    proof {
        let h = app_section_head(i as nat);
        let b = app_section_body(i as nat, bin.spec_bytes());
        let t = app_section_tail(i as nat);
        vstd::seq_lib::lemma_concat_associative(o, h, b);
        vstd::seq_lib::lemma_concat_associative(o, h + b, t);
    }
}

/// The text of `src/link_app.s` for chapter `ch`, or `None` when the chapter has no user
/// programs, in which case no file is written.
pub fn create_link_app(ch: &Makefile) -> (r: Option<Vec<u8>>)
    ensures
        r is None <==> ch.users@.len() == 0,
        r matches Some(t) ==> t@ == link_app_text(user_bins(ch.users@)),
{
    let n = ch.users.len();
    if n == 0 {
        return None;
    }
    let ghost bins = user_bins(ch.users@);
    let mut f: Vec<u8> = Vec::new();
    push_str(&mut f, "# created by crate make\n    .section .data\n    .globl _num_app\n_num_app:\n    .quad ");
    push_decimal(&mut f, n);
    push_str(&mut f, "\n");
    let ghost head = f@;
    let mut i: usize = 0;
    while i < n
        invariant
            i <= n,
            f@ == head + app_start_lines(i as nat),
        decreases n - i,
    {
        push_str(&mut f, "    .quad app_");
        push_decimal(&mut f, i);
        push_str(&mut f, "_start\n");
        i += 1;
        assert(f@ =~= head + app_start_lines(i as nat));
    }
    push_str(&mut f, "    .quad app_");
    push_decimal(&mut f, n - 1);
    push_str(&mut f, "_end\n");
    push_str(&mut f, "\n    .globl _app_names\n_app_names:\n");
    let ghost names_at = f@;
    let mut j: usize = 0;
    while j < n
        invariant
            j <= n,
            n == ch.users@.len(),
            bins == user_bins(ch.users@),
            f@ == names_at + app_name_lines(bins.take(j as int)),
        decreases n - j,
    {
        push_str(&mut f, "    .string \"");
        push_str(&mut f, ch.users[j].bin);
        push_str(&mut f, "\"\n");
        j += 1;
        assert(bins.take(j as int).drop_last() =~= bins.take(j - 1));
        assert(f@ =~= names_at + app_name_lines(bins.take(j as int)));
    }
    let ghost sections_at = f@;
    let mut k: usize = 0;
    while k < n
        invariant
            k <= n,
            n == ch.users@.len(),
            bins == user_bins(ch.users@),
            f@ == sections_at + app_sections(bins.take(k as int)),
        decreases n - k,
    {
        push_app_section(&mut f, k, ch.users[k].bin);
        k += 1;
        assert(bins.take(k as int).drop_last() =~= bins.take(k - 1));
        assert(f@ =~= sections_at + app_sections(bins.take(k as int)));
    }
    proof {
        assert(bins.take(n as int) =~= bins);
    }
    Some(f)
}

} // verus!
