//! The command line of a process from the argument area that the kernel
//! reports (`KERN_PROCARGS2`): the argument count, the executable path, padding,
//! then the arguments, each ended by a zero byte.
use vstd::prelude::*;
use vstd::utf8::{valid_utf8, decode_utf8};
use crate::text::{chars_of, push_chars, decode_lossy, utf8_lossy};

verus! {

/// The first index at or after `i`, before `len`, that holds a zero byte, or `len`.
pub open spec fn nul_from(b: Seq<u8>, i: int, len: int) -> int
    decreases len - i,
{
    if 0 <= i < len && b[i] != 0 {
        nul_from(b, i + 1, len)
    } else {
        i
    }
}

/// The first index at or after `i`, before `len`, that holds a non-zero byte, or `len`.
pub open spec fn skip_nuls(b: Seq<u8>, i: int, len: int) -> int
    decreases len - i,
{
    if 0 <= i < len && b[i] == 0 {
        skip_nuls(b, i + 1, len)
    } else {
        i
    }
}

pub proof fn lemma_nul_from(b: Seq<u8>, i: int, len: int)
    requires
        0 <= i <= len <= b.len(),
    ensures
        i <= nul_from(b, i, len) <= len,
    decreases len - i,
{
    if i < len && b[i] != 0 {
        lemma_nul_from(b, i + 1, len);
    }
}

/// The zero-ended arguments from index `pos` on, at most `remaining` of them,
/// within the first `len` bytes.
pub open spec fn args_from(b: Seq<u8>, pos: int, len: int, remaining: int) -> Seq<Seq<u8>>
    decreases len + 1 - pos,
{
    if 0 <= pos < len && len <= b.len() && remaining > 0 {
        proof {
            lemma_nul_from(b, pos, len);
        }
        let e = nul_from(b, pos, len);
        seq![b.subrange(pos, e)] + args_from(b, e + 1, len, remaining - 1)
    } else {
        Seq::empty()
    }
}

/// Parts joined by single spaces.
pub open spec fn join_with_spaces(parts: Seq<Seq<char>>) -> Seq<char>
    decreases parts.len(),
{
    if parts.len() == 0 {
        Seq::empty()
    } else if parts.len() == 1 {
        parts[0]
    } else {
        join_with_spaces(parts.drop_last()) + seq![' '] + parts.last()
    }
}

/// The text of one argument: its UTF-8 decoding when it is valid UTF-8,
/// otherwise the lossy decoding that replaces invalid sequences.
pub open spec fn arg_text(a: Seq<u8>) -> Seq<char> {
    if valid_utf8(a) {
        decode_utf8(a)
    } else {
        utf8_lossy(a)
    }
}

/// The argument count at the start of the area: four bytes, least significant first.
pub open spec fn argc_of(b: Seq<u8>) -> i32 {
    (b[0] + 256 * b[1] + 65536 * b[2] + 16777216 * b[3]) as u32 as i32
}

/// The command line that the first `len` bytes of the argument area give: the
/// arguments after the executable path and its padding, as many as the count
/// says and the area holds, each decoded as UTF-8 (lossily where it is not
/// valid), joined by spaces.
/// None when the area is shorter than the count, ends within the path or the
/// padding, or holds no argument.
pub open spec fn procargs_cmdline(b: Seq<u8>, len: int) -> Option<Seq<char>> {
    if len < 4 {
        None
    } else {
        let p = nul_from(b, 4, len);
        if p >= len {
            None
        } else {
            let q = skip_nuls(b, p, len);
            if q >= len {
                None
            } else {
                let args = args_from(b, q, len, argc_of(b) as int);
                if args.len() == 0 {
                    None
                } else {
                    Some(join_with_spaces(args.map_values(|a: Seq<u8>| arg_text(a))))
                }
            }
        }
    }
}

fn sub_bytes(b: &[u8], lo: usize, hi: usize) -> (out: Vec<u8>)
    requires
        lo <= hi <= b.len(),
    ensures
        out@ == b@.subrange(lo as int, hi as int),
{
    let mut out: Vec<u8> = Vec::new();
    let mut i = lo;
    while i < hi
        invariant
            lo <= i <= hi,
            hi <= b.len(),
            out@ == b@.subrange(lo as int, i as int),
        decreases hi - i,
    {
        out.push(b[i]);
        assert(b@.subrange(lo as int, i + 1) =~= b@.subrange(lo as int, i as int).push(
            b@[i as int],
        ));
        i = i + 1;
    }
    out
}

/// The command line in the first `len` bytes of a process's argument area.
pub fn cmdline_from_procargs(buf: &[u8], len: usize) -> (cmd: Option<String>)
    requires
        len <= buf.len(),
    ensures
        match cmd {
            Some(c) => procargs_cmdline(buf@, len as int) == Some(c@),
            None => procargs_cmdline(buf@, len as int) is None,
        },
{
    let ghost b = buf@;
    if len < 4 {
        return None;
    }
    let count_bytes: u32 = buf[0] as u32 + 256 * (buf[1] as u32) + 65536 * (buf[2] as u32)
        + 16777216 * (buf[3] as u32);
    let argc = count_bytes as i32;
    assert(argc == argc_of(b));
    let mut pos: usize = 4;
    while pos < len && buf[pos] != 0
        invariant
            4 <= pos <= len,
            len <= buf.len(),
            b == buf@,
            nul_from(b, 4, len as int) == nul_from(b, pos as int, len as int),
        decreases len - pos,
    {
        pos = pos + 1;
    }
    if pos >= len {
        return None;
    }
    let ghost p = pos as int;
    while pos < len && buf[pos] == 0
        invariant
            p <= pos <= len,
            len <= buf.len(),
            b == buf@,
            skip_nuls(b, p, len as int) == skip_nuls(b, pos as int, len as int),
        decreases len - pos,
    {
        pos = pos + 1;
    }
    if pos >= len {
        return None;
    }
    let ghost q = pos as int;
    let ghost all = args_from(b, q, len as int, argc as int);
    let ghost mut done: Seq<Seq<u8>> = Seq::empty();
    let mut line = String::new();
    let mut count: i32 = 0;
    while pos < len && count < argc
        invariant
            q <= pos,
            len <= buf.len(),
            b == buf@,
            pos <= len,
            0 <= count,
            count == 0 || count <= argc,
            all == args_from(b, q, len as int, argc as int),
            all =~= done + args_from(b, pos as int, len as int, argc - count),
            done.len() == count,
            line@ == join_with_spaces(done.map_values(|a: Seq<u8>| arg_text(a))),
        decreases len + 1 - pos,
    {
        let start = pos;
        while pos < len && buf[pos] != 0
            invariant
                start <= pos <= len,
                len <= buf.len(),
                b == buf@,
                nul_from(b, start as int, len as int) == nul_from(b, pos as int, len as int),
            decreases len - pos,
        {
            pos = pos + 1;
        }
        proof {
            lemma_nul_from(b, pos as int, len as int);
        }
        let raw = sub_bytes(buf, start, pos);
        let arg = decode_lossy(raw.as_slice());
        let ghost before = done.map_values(|a: Seq<u8>| arg_text(a));
        if count > 0 {
            let space = chars_of(" ");
            proof {
                reveal_strlit(" ");
            }
            push_chars(&mut line, space.as_slice());
        }
        let arg_chars = chars_of(arg.as_str());
        push_chars(&mut line, arg_chars.as_slice());
        proof {
            let seg = b.subrange(start as int, pos as int);
            assert(args_from(b, start as int, len as int, argc - count) == seq![seg] + args_from(
                b,
                pos + 1,
                len as int,
                argc - count - 1,
            ));
            done = done.push(seg);
            assert(done.map_values(|a: Seq<u8>| arg_text(a)) =~= before.push(arg_text(seg)));
            assert(done.map_values(|a: Seq<u8>| arg_text(a)).drop_last() =~= before);
        }
        count = count + 1;
        if pos < len {
            pos = pos + 1;
        } else {
            proof {
                assert(args_from(b, pos + 1, len as int, argc - count) =~= Seq::<Seq<u8>>::empty());
                assert(args_from(b, pos as int, len as int, argc - count) =~= Seq::<Seq<u8>>::empty());
            }
        }
    }
    proof {
        if !(pos < len) {
            assert(args_from(b, pos as int, len as int, argc - count) =~= Seq::<Seq<u8>>::empty());
        }
        if !(count < argc) {
            assert(args_from(b, pos as int, len as int, argc - count) =~= Seq::<Seq<u8>>::empty());
        }
    }
    if count == 0 {
        None
    } else {
        Some(line)
    }
}

} // verus!
