use vstd::prelude::*;

use crate::bytes::{lemma_split_nonempty, split_bytes, split_on, views};

verus! {

/// The little-endian 32-bit number in the first four bytes.
pub open spec fn arg_count(b: Seq<u8>) -> int {
    b[0] + 256 * b[1] + 65536 * b[2] + 16777216 * b[3]
}

/// Index of the first byte at or after `from` that is (`zero`) or is not
/// (`!zero`) a NUL; the length where there is none.
pub open spec fn scan_to(b: Seq<u8>, from: int, zero: bool) -> int
    decreases b.len() - from,
{
    if from >= b.len() {
        b.len() as int
    } else if (b[from] == 0) == zero {
        from
    } else {
        scan_to(b, from + 1, zero)
    }
}

/// Where the arguments begin: past the executable's path, which follows
/// the count, and the NULs that pad it.
pub open spec fn args_start(b: Seq<u8>) -> int {
    scan_to(b, scan_to(b, 4, true), false)
}

/// The arguments of a `KERN_PROCARGS2` buffer: the NUL-terminated strings
/// from `args_start` on, at most as many as the count says; `None` where
/// the buffer is too short to hold the count or holds no argument.
pub open spec fn procargs(b: Seq<u8>) -> Option<Seq<Seq<u8>>> {
    if b.len() < 4 {
        Option::None
    } else {
        let terminated = split_on(b.subrange(args_start(b), b.len() as int), 0).drop_last();
        let n = if arg_count(b) < terminated.len() {
            arg_count(b)
        } else {
            terminated.len() as int
        };
        if n == 0 {
            Option::None
        } else {
            Option::Some(terminated.take(n))
        }
    }
}

fn scan(b: &Vec<u8>, from: usize, zero: bool) -> (r: usize)
    requires
        from <= b.len(),
    ensures
        r == scan_to(b@, from as int, zero),
        from <= r <= b.len(),
    decreases b.len() - from,
{
    if from >= b.len() {
        b.len()
    } else if (b[from] == 0) == zero {
        from
    } else {
        scan(b, from + 1, zero)
    }
}

/// Reads the argument vector out of a `KERN_PROCARGS2` buffer.
pub fn parse_procargs(buf: &Vec<u8>) -> (r: Option<Vec<Vec<u8>>>)
    ensures
        match procargs(buf@) {
            Option::None => r is None,
            Option::Some(args) => r matches Option::Some(v) && views(v@) == args,
        },
{
    if buf.len() < 4 {
        return None;
    }
    let count: u64 = buf[0] as u64 + 256 * buf[1] as u64 + 65536 * buf[2] as u64 + 16777216 * buf[3] as u64;
    let path_end = scan(buf, 4, true);
    let start = scan(buf, path_end, false);
    let pieces = split_bytes(buf, start, 0);
    proof {
        lemma_split_nonempty(buf@.subrange(start as int, buf.len() as int), 0);
    }
    let terminated = pieces.len() - 1;
    let n: usize = if (count as u128) < terminated as u128 {
        count as usize
    } else {
        terminated
    };
    if n == 0 {
        return None;
    }
    let mut rest = pieces;
    let ghost all = rest@;
    let mut args: Vec<Vec<u8>> = Vec::new();
    while args.len() < n
        invariant
            args.len() <= n,
            n <= terminated,
            terminated + 1 == all.len(),
            rest@ == all.subrange(args.len() as int, all.len() as int),
            views(args@) == views(all).take(args.len() as int),
        decreases n - args.len(),
    {
        let piece = rest.remove(0);
        args.push(piece);
        assert(rest@ =~= all.subrange(args.len() as int, all.len() as int));
        assert(views(args@) =~= views(all).take(args.len() as int));
    }
    assert(views(all).drop_last().take(n as int) =~= views(all).take(n as int));
    Some(args)
}

/// The arguments joined with single spaces.
pub open spec fn joined_args(args: Seq<Seq<u8>>) -> Seq<u8>
    decreases args.len(),
{
    if args.len() == 0 {
        Seq::empty()
    } else if args.len() == 1 {
        args[0]
    } else {
        joined_args(args.drop_last()).push(0x20) + args.last()
    }
}

pub fn join_args(args: &Vec<Vec<u8>>) -> (r: Vec<u8>)
    ensures
        r@ == joined_args(views(args@)),
{
    let mut out: Vec<u8> = Vec::new();
    let mut i: usize = 0;
    while i < args.len()
        invariant
            i <= args.len(),
            out@ == joined_args(views(args@).take(i as int)),
        decreases args.len() - i,
    {
        let ghost before = out@;
        if i > 0 {
            out.push(0x20);
        }
        let arg = &args[i];
        let mut j: usize = 0;
        let ghost mid = out@;
        while j < arg.len()
            invariant
                j <= arg.len(),
                out@ == mid + arg@.take(j as int),
            decreases arg.len() - j,
        {
            out.push(arg[j]);
            j = j + 1;
            assert(out@ =~= mid + arg@.take(j as int));
        }
        assert(arg@.take(j as int) =~= arg@);
        assert(views(args@).take(i + 1).drop_last() =~= views(args@).take(i as int));
        i = i + 1;
        assert(out@ =~= joined_args(views(args@).take(i as int)));
    }
    assert(views(args@).take(i as int) =~= views(args@));
    out
}

} // verus!
