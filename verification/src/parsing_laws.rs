//! What the readers of tool output give, stated over all inputs in terms of how
//! the input is built.
use vstd::prelude::*;
use vstd::utf8::{valid_utf8, decode_utf8};
use crate::text::{lines, words, decimal, is_digit, is_ws, has_infix, occurs_at, parse_unsigned};
use vstd::utf8::encode_utf8;
use crate::ports::{
    is_candidate_port,
    port_listed,
    line_port,
    after_last_colon,
    last_colon,
    is_system_port,
    EPHEMERAL_START,
};
use crate::process::{lsof_cwd, cwd_line_from, lsof_pid, ps_ppid, ps_command, looks_renamed, first_word, best_cmdline};
use crate::procargs::{
    procargs_cmdline,
    args_from,
    nul_from,
    skip_nuls,
    argc_of,
    arg_text,
    join_with_spaces,
};
use crate::laws::{
    lemma_decimal_digits,
    law_decimal_parses_back,
    all_whitespace,
    law_trim_removes_surrounding_whitespace,
    law_trim_of_whitespace_is_empty,
};

verus! {

// ---------------------------------------------------------------------------
// Listening ports
// ---------------------------------------------------------------------------

proof fn lemma_last_colon_at(s: Seq<char>, c: int, j: int)
    requires
        0 <= c < j <= s.len(),
        s[c] == ':',
        forall|k: int| c < k < j ==> #[trigger] s[k] != ':',
    ensures
        last_colon(s, j) == c,
    decreases j - c,
{
    if j - 1 > c {
        lemma_last_colon_at(s, c, j - 1);
    }
}

/// A port that a line after the header names as `<address>:<port>` (the
/// second-to-last word) is kept, whatever the port, unless it is one of the
/// fourteen system ports (22, 53, 88, 443, 445, 631, 1900, 3306, 3722, 5353,
/// 5432, 6379, 7000, 27017) or lies in the ephemeral range from 49152 on.
pub proof fn law_listed_port_is_kept(listing: Seq<char>, k: int, address: Seq<char>, p: u16)
    requires
        1 <= k < lines(listing).len(),
        words(lines(listing)[k]).len() >= 2,
        words(lines(listing)[k])[words(lines(listing)[k]).len() - 2] == address + seq![':']
            + decimal(p as nat),
        p < 49152,
        p != 22 && p != 53 && p != 88 && p != 443 && p != 445 && p != 631 && p != 1900 && p
            != 3306 && p != 3722 && p != 5353 && p != 5432 && p != 6379 && p != 7000 && p
            != 27017,
    ensures
        is_candidate_port(listing, p),
{
    let line = lines(listing)[k];
    let name = address + seq![':'] + decimal(p as nat);
    let c = address.len() as int;
    lemma_decimal_digits(p as nat);
    assert forall|j: int| c < j < name.len() implies #[trigger] name[j] != ':' by {
        assert(name[j] == decimal(p as nat)[j - c - 1]);
        assert(is_digit(decimal(p as nat)[j - c - 1]));
    }
    assert(name[c] == ':');
    lemma_last_colon_at(name, c, name.len() as int);
    assert(after_last_colon(name) =~= decimal(p as nat));
    law_decimal_parses_back(p as nat, 0xffff);
    assert(line_port(line) == Some(p));
    assert(port_listed(listing, p));
}

/// A kept port is never a system port and never lies in the ephemeral range.
pub proof fn law_kept_port_is_no_system_port(listing: Seq<char>, p: u16)
    requires
        is_candidate_port(listing, p),
    ensures
        p < 49152,
        p != 22 && p != 53 && p != 88 && p != 443 && p != 445 && p != 631 && p != 1900 && p
            != 3306 && p != 3722 && p != 5353 && p != 5432 && p != 6379 && p != 7000 && p
            != 27017,
{
}

// ---------------------------------------------------------------------------
// Working directory
// ---------------------------------------------------------------------------

/// A line that starts with `n`.
pub open spec fn starts_with_n(line: Seq<char>) -> bool {
    line.len() > 0 && line[0] == 'n'
}

proof fn lemma_cwd_line_from(ls: Seq<Seq<char>>, j: int, k: int)
    requires
        0 <= j <= k <= ls.len(),
        forall|m: int| j <= m < k ==> !starts_with_n(#[trigger] ls[m]),
    ensures
        cwd_line_from(ls, j) == cwd_line_from(ls, k),
    decreases k - j,
{
    if j < k {
        lemma_cwd_line_from(ls, j + 1, k);
    }
}

/// The working directory is everything after the `n` of the first line that
/// starts with `n`, every character kept, spaces included.
pub proof fn law_cwd_is_whole_rest_of_first_n_line(out: Seq<char>, k: int, dir: Seq<char>)
    requires
        0 <= k < lines(out).len(),
        lines(out)[k] == seq!['n'] + dir,
        forall|j: int| 0 <= j < k ==> !starts_with_n(#[trigger] lines(out)[j]),
    ensures
        lsof_cwd(true, out) == Some(dir),
{
    lemma_cwd_line_from(lines(out), 0, k);
    assert(lines(out)[k].drop_first() =~= dir);
}

/// Without a line that starts with `n`, or when the command failed, there is
/// no working directory.
pub proof fn law_cwd_needs_an_n_line(out: Seq<char>, success: bool)
    requires
        !success || forall|j: int| 0 <= j < lines(out).len() ==> !starts_with_n(
            #[trigger] lines(out)[j],
        ),
    ensures
        lsof_cwd(success, out) is None,
{
    if success {
        lemma_cwd_line_from(lines(out), 0, lines(out).len() as int);
    }
}

// ---------------------------------------------------------------------------
// Argument area
// ---------------------------------------------------------------------------

/// Arguments, each followed by a zero byte.
pub open spec fn nul_ended(args: Seq<Seq<u8>>) -> Seq<u8>
    decreases args.len(),
{
    if args.len() == 0 {
        Seq::empty()
    } else {
        args[0] + seq![0u8] + nul_ended(args.drop_first())
    }
}

/// No byte of `a` is zero.
pub open spec fn no_zero(a: Seq<u8>) -> bool {
    forall|j: int| 0 <= j < a.len() ==> #[trigger] a[j] != 0
}

proof fn lemma_nul_from_at(b: Seq<u8>, i: int, e: int, len: int)
    requires
        0 <= i <= e < len <= b.len(),
        forall|k: int| i <= k < e ==> #[trigger] b[k] != 0,
        b[e] == 0,
    ensures
        nul_from(b, i, len) == e,
    decreases e - i,
{
    if i < e {
        lemma_nul_from_at(b, i + 1, e, len);
    }
}

proof fn lemma_skip_nuls_at(b: Seq<u8>, i: int, e: int, len: int)
    requires
        0 <= i <= e < len <= b.len(),
        forall|k: int| i <= k < e ==> #[trigger] b[k] == 0,
        b[e] != 0,
    ensures
        skip_nuls(b, i, len) == e,
    decreases e - i,
{
    if i < e {
        lemma_skip_nuls_at(b, i + 1, e, len);
    }
}

proof fn lemma_args_from_nul_ended(b: Seq<u8>, pos: int, len: int, args: Seq<Seq<u8>>, r: int)
    requires
        0 <= pos <= len <= b.len(),
        b.subrange(pos, len) == nul_ended(args),
        forall|m: int| 0 <= m < args.len() ==> no_zero(#[trigger] args[m]),
        r >= args.len(),
    ensures
        args_from(b, pos, len, r) == args,
    decreases args.len(),
{
    if args.len() == 0 {
        assert(b.subrange(pos, len).len() == 0);
        assert(args_from(b, pos, len, r) =~= args);
    } else {
        let a = args[0];
        let rest = args.drop_first();
        let e = pos + a.len();
        assert(b.subrange(pos, len) == a + seq![0u8] + nul_ended(rest));
        assert(no_zero(a));
        assert forall|k: int| pos <= k < e implies #[trigger] b[k] != 0 by {
            assert(b[k] == b.subrange(pos, len)[k - pos]);
            assert(b.subrange(pos, len)[k - pos] == a[k - pos]);
        }
        assert(b[e] == b.subrange(pos, len)[e - pos]);
        lemma_nul_from_at(b, pos, e, len);
        assert(b.subrange(pos, e) =~= a);
        assert(b.subrange(e + 1, len) =~= nul_ended(rest)) by {
            assert forall|k: int| 0 <= k < len - (e + 1) implies b.subrange(e + 1, len)[k]
                == nul_ended(rest)[k] by {
                assert(b.subrange(e + 1, len)[k] == b.subrange(pos, len)[k + a.len() + 1]);
            }
        }
        assert forall|m: int| 0 <= m < rest.len() implies no_zero(#[trigger] rest[m]) by {
            assert(rest[m] == args[m + 1]);
        }
        lemma_args_from_nul_ended(b, e + 1, len, rest, r - 1);
        assert(args_from(b, pos, len, r) == seq![a] + args_from(b, e + 1, len, r - 1));
        assert(seq![a] + rest =~= args);
    }
}

/// The command line in an argument area holds every argument: when the count
/// at the start says `args.len()` and the area holds the executable path, its
/// zero padding and then exactly those arguments, each ended by a zero byte,
/// the command line is all of them, in order, joined by spaces.
pub proof fn law_procargs_give_every_argument(
    b: Seq<u8>,
    path: Seq<u8>,
    pad: Seq<u8>,
    args: Seq<Seq<u8>>,
)
    requires
        b.len() >= 4,
        b[0] + 256 * b[1] + 65536 * b[2] + 16777216 * b[3] == args.len(),
        args.len() < 0x8000_0000,
        b.skip(4) == path + pad + nul_ended(args),
        path.len() > 0,
        no_zero(path),
        pad.len() > 0,
        forall|j: int| 0 <= j < pad.len() ==> #[trigger] pad[j] == 0,
        args.len() > 0,
        args[0].len() > 0,
        forall|m: int| 0 <= m < args.len() ==> no_zero(#[trigger] args[m]),
    ensures
        procargs_cmdline(b, b.len() as int) == Some(
            join_with_spaces(args.map_values(|a: Seq<u8>| arg_text(a))),
        ),
{
    let len = b.len() as int;
    let p: int = 4 + path.len() as int;
    let q: int = p + pad.len();
    let body = nul_ended(args);
    assert(body == args[0] + seq![0u8] + nul_ended(args.drop_first()));
    assert(body.len() > 0);
    assert(argc_of(b) == args.len());
    assert(b.skip(4).len() == path.len() + pad.len() + body.len());
    assert(len == q + body.len());
    assert forall|k: int| 4 <= k < p implies #[trigger] b[k] != 0 by {
        assert(b[k] == b.skip(4)[k - 4]);
        assert(b.skip(4)[k - 4] == path[k - 4]);
    }
    assert(b[p] == b.skip(4)[p - 4]);
    assert(b.skip(4)[p - 4] == pad[0]);
    lemma_nul_from_at(b, 4, p, len);
    assert forall|k: int| p <= k < q implies #[trigger] b[k] == 0 by {
        assert(b[k] == b.skip(4)[k - 4]);
        assert(b.skip(4)[k - 4] == pad[k - p]);
    }
    assert(b[q] == b.skip(4)[q - 4]);
    assert(b.skip(4)[q - 4] == body[0]);
    assert(body[0] == args[0][0]);
    lemma_skip_nuls_at(b, p, q, len);
    assert(b.subrange(q, len) =~= body) by {
        assert forall|k: int| 0 <= k < len - q implies b.subrange(q, len)[k] == body[k] by {
            assert(b.subrange(q, len)[k] == b.skip(4)[k + q - 4]);
        }
    }
    lemma_args_from_nul_ended(b, q, len, args, args.len() as int);
}

/// Each argument that is valid UTF-8 appears as its UTF-8 text.
pub proof fn law_valid_argument_is_its_text(a: Seq<u8>)
    requires
        valid_utf8(a),
    ensures
        arg_text(a) == decode_utf8(a),
{
}

/// Joining by spaces: one part is itself; one more part adds a space and the part.
pub proof fn law_join_with_spaces(parts: Seq<Seq<char>>, x: Seq<char>)
    ensures
        join_with_spaces(seq![x]) == x,
        parts.len() > 0 ==> join_with_spaces(parts.push(x)) == join_with_spaces(parts) + seq![' ']
            + x,
{
    assert(parts.push(x).drop_last() =~= parts);
}

// ---------------------------------------------------------------------------
// Process ids and command lines
// ---------------------------------------------------------------------------

proof fn lemma_decimal_has_no_whitespace(n: nat)
    ensures
        decimal(n).len() > 0,
        forall|i: int| 0 <= i < decimal(n).len() ==> !is_ws(#[trigger] decimal(n)[i]),
{
    lemma_decimal_digits(n);
    assert forall|i: int| 0 <= i < decimal(n).len() implies !is_ws(#[trigger] decimal(n)[i]) by {
        assert(is_digit(decimal(n)[i]));
    }
}

/// The process id that `lsof -t` prints first is read whole: a first line that
/// holds a number, with any whitespace around it, gives that number.
pub proof fn law_pid_is_number_on_first_line(
    out: Seq<char>,
    before: Seq<char>,
    after: Seq<char>,
    pid: u32,
)
    requires
        lines(out).len() > 0,
        lines(out)[0] == before + decimal(pid as nat) + after,
        all_whitespace(before),
        all_whitespace(after),
    ensures
        lsof_pid(true, out) == Some(pid),
        lsof_pid(false, out) is None,
{
    lemma_decimal_has_no_whitespace(pid as nat);
    let d = decimal(pid as nat);
    law_trim_removes_surrounding_whitespace(before, d, after);
    law_decimal_parses_back(pid as nat, 0xffff_ffff);
}

/// The parent process id that `ps` prints is read whole, whitespace around it ignored.
pub proof fn law_ppid_is_printed_number(out: Seq<char>, before: Seq<char>, after: Seq<char>, ppid: u32)
    requires
        out == before + decimal(ppid as nat) + after,
        all_whitespace(before),
        all_whitespace(after),
    ensures
        ps_ppid(true, out) == Some(ppid),
        ps_ppid(false, out) is None,
{
    lemma_decimal_has_no_whitespace(ppid as nat);
    law_trim_removes_surrounding_whitespace(before, decimal(ppid as nat), after);
    law_decimal_parses_back(ppid as nat, 0xffff_ffff);
}

/// The command line that `ps` prints is kept whole, only the whitespace around
/// it removed; a blank output gives none.
pub proof fn law_ps_command_is_whole_trimmed_output(
    before: Seq<char>,
    core: Seq<char>,
    after: Seq<char>,
)
    requires
        all_whitespace(before),
        all_whitespace(after),
        core.len() > 0,
        !is_ws(core[0]),
        !is_ws(core[core.len() - 1]),
    ensures
        ps_command(true, before + core + after) == Some(core),
        ps_command(false, before + core + after) is None,
        all_whitespace(before) ==> ps_command(true, before) is None,
{
    law_trim_removes_surrounding_whitespace(before, core, after);
    law_trim_of_whitespace_is_empty(before);
}

/// A lower-case ASCII letter.
pub open spec fn is_lower(c: char) -> bool {
    97 <= (c as u32) <= 122
}

proof fn lemma_no_infix_of_other_chars(s: Seq<char>, pat: Seq<char>)
    requires
        pat.len() > 0,
        forall|i: int| 0 <= i < s.len() ==> is_lower(#[trigger] s[i]),
        !is_lower(pat[0]),
    ensures
        !has_infix(s, pat),
{
    if has_infix(s, pat) {
        let i = choose|i: int| occurs_at(s, pat, i);
        assert(s.subrange(i, i + pat.len())[0] == s[i]);
    }
}

proof fn lemma_lower_utf8_len(s: Seq<char>)
    requires
        forall|i: int| 0 <= i < s.len() ==> is_lower(#[trigger] s[i]),
    ensures
        encode_utf8(s).len() == s.len(),
    decreases s.len(),
{
    if s.len() > 0 {
        let rest = s.drop_first();
        assert forall|i: int| 0 <= i < rest.len() implies is_lower(#[trigger] rest[i]) by {
            assert(rest[i] == s[i + 1]);
        }
        lemma_lower_utf8_len(rest);
        assert(is_lower(s[0]));
    }
}

/// A bare name of lower-case letters is a renamed child process exactly when
/// it is shorter than 50 bytes.
pub proof fn law_bare_name_is_renamed_when_short(cmd: Seq<char>)
    requires
        cmd.len() > 0,
        forall|i: int| 0 <= i < cmd.len() ==> is_lower(#[trigger] cmd[i]),
    ensures
        looks_renamed(cmd) <==> cmd.len() < 50,
{
    assert(('(' as u32) == 40);
    assert(('/' as u32) == 47);
    assert(('-' as u32) == 45);
    assert(('.' as u32) == 46);
    lemma_no_infix_of_other_chars(cmd, seq!['(', 'v']);
    lemma_no_infix_of_other_chars(cmd, seq!['-', '-']);
    lemma_no_infix_of_other_chars(cmd, seq!['-', 'p']);
    lemma_lower_utf8_len(cmd);
    let w = first_word(cmd);
    // the first word is part of the command, so it holds no '/' and no '.'
    if has_infix(w, seq!['/']) || occurs_at(w, seq!['.', 'j', 's'], w.len() - 3) || occurs_at(
        w,
        seq!['.', 't', 's'],
        w.len() - 3,
    ) {
        lemma_first_word_is_lower(cmd);
        lemma_no_infix_of_other_chars(w, seq!['/']);
        if occurs_at(w, seq!['.', 'j', 's'], w.len() - 3) {
            assert(w.subrange(w.len() - 3, w.len() as int)[0] == w[w.len() - 3]);
        }
        if occurs_at(w, seq!['.', 't', 's'], w.len() - 3) {
            assert(w.subrange(w.len() - 3, w.len() as int)[0] == w[w.len() - 3]);
        }
    }
}

proof fn lemma_first_word_is_lower(cmd: Seq<char>)
    requires
        forall|i: int| 0 <= i < cmd.len() ==> is_lower(#[trigger] cmd[i]),
    ensures
        forall|i: int|
            0 <= i < first_word(cmd).len() ==> is_lower(#[trigger] first_word(cmd)[i]),
{
    crate::text::lemma_skip_ws(cmd, 0);
    let w = first_word(cmd);
    if crate::text::words(cmd).len() > 0 {
        let sp = crate::text::word_spans_from(cmd, 0);
        let k = crate::text::skip_ws(cmd, 0);
        crate::text::lemma_word_end(cmd, k);
        assert(sp[0] == (k, crate::text::word_end(cmd, k)));
        assert forall|i: int| 0 <= i < w.len() implies is_lower(#[trigger] w[i]) by {
            assert(w[i] == cmd[k + i]);
        }
    }
}

/// A renamed child whose parent, above init, has a meaningful command line is
/// shown with the parent's command line; a process that does not look renamed
/// is shown with its own.
pub proof fn law_best_cmdline_walks_up_once(
    cmd: Seq<char>,
    ppid: u32,
    parent: Seq<char>,
    other_ppid: Option<u32>,
    other_parent: Option<Seq<char>>,
)
    ensures
        looks_renamed(cmd) && ppid > 1 && !looks_renamed(parent) ==> best_cmdline(
            Some(cmd),
            Some(ppid),
            Some(parent),
        ) == Some(parent),
        !looks_renamed(cmd) ==> best_cmdline(Some(cmd), other_ppid, other_parent) == Some(cmd),
        ppid <= 1 ==> best_cmdline(Some(cmd), Some(ppid), other_parent) == Some(cmd),
        looks_renamed(parent) ==> best_cmdline(Some(cmd), other_ppid, Some(parent)) == Some(cmd),
        best_cmdline(None, other_ppid, other_parent) is None,
{
}

} // verus!
