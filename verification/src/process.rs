//! What the process tools report about a server's process: its id, working
//! directory, parent and command line.
use vstd::prelude::*;
use vstd::utf8::encode_utf8;
use crate::server::opt_chars;
use crate::text::{
    chars_of,
    sub_chars,
    string_of,
    trim_chars,
    line_spans,
    word_spans,
    contains_chars,
    ends_with_chars,
    utf8_len_below,
    parse_u32_chars,
    lines,
    words,
    trim,
    has_infix,
    has_suffix,
    parse_unsigned,
    line_spans_from,
    word_spans_from,
};

verus! {

/// The number a command prints, with surrounding whitespace, as a `u32`.
pub open spec fn parse_u32_text(s: Seq<char>) -> Option<u32> {
    match parse_unsigned(trim(s), 0xffff_ffff) {
        Some(v) => Some(v as u32),
        None => None,
    }
}

/// The process id that `lsof -t` prints: the first line, trimmed, as a number.
/// A failed command, an empty output or a first line that is no number gives none.
pub open spec fn lsof_pid(success: bool, out: Seq<char>) -> Option<u32> {
    if success && lines(out).len() > 0 {
        parse_u32_text(lines(out)[0])
    } else {
        None
    }
}

/// The process id that `lsof -t` reports for a port.
pub fn pid_from_lsof_output(success: bool, output: &str) -> (pid: Option<u32>)
    ensures
        pid == lsof_pid(success, output@),
{
    if !success {
        return None;
    }
    let s = chars_of(output);
    let spans = line_spans(s.as_slice());
    if spans.len() == 0 {
        return None;
    }
    let (lo, hi) = spans[0];
    let line = sub_chars(s.as_slice(), lo, hi);
    assert(line@ == lines(output@)[0]);
    let t = trim_chars(line.as_slice());
    match parse_u32_chars(t.as_slice()) {
        Some(v) => Some(v),
        None => None,
    }
}

/// The working directory in `lsof -F n` output: the rest of the first line,
/// from index `k` on, that starts with `n`.
pub open spec fn cwd_line_from(ls: Seq<Seq<char>>, k: int) -> Option<Seq<char>>
    decreases ls.len() - k,
{
    if 0 <= k < ls.len() {
        if ls[k].len() > 0 && ls[k][0] == 'n' {
            Some(ls[k].drop_first())
        } else {
            cwd_line_from(ls, k + 1)
        }
    } else {
        None
    }
}

/// The working directory that `lsof -a -p <pid> -d cwd -F n` reports.
pub open spec fn lsof_cwd(success: bool, out: Seq<char>) -> Option<Seq<char>> {
    if success {
        cwd_line_from(lines(out), 0)
    } else {
        None
    }
}

/// The working directory that `lsof` reports for a process.
pub fn cwd_from_lsof_output(success: bool, output: &str) -> (cwd: Option<String>)
    ensures
        opt_chars(cwd) == lsof_cwd(success, output@),
{
    if !success {
        return None;
    }
    let s = chars_of(output);
    let spans = line_spans(s.as_slice());
    let ghost ls = lines(s@);
    let mut k: usize = 0;
    while k < spans.len()
        invariant
            k <= spans.len(),
            ls == lines(s@),
            s@ == output@,
            ls.len() == spans@.len(),
            spans@.len() == line_spans_from(s@, 0).len(),
            forall|m: int|
                0 <= m < spans@.len() ==> {
                    &&& (#[trigger] spans@[m]).0 == line_spans_from(s@, 0)[m].0
                    &&& spans@[m].1 == line_spans_from(s@, 0)[m].1
                    &&& spans@[m].0 <= spans@[m].1 <= s.len()
                },
            cwd_line_from(ls, 0) == cwd_line_from(ls, k as int),
            success,
        decreases spans.len() - k,
    {
        let (lo, hi) = spans[k];
        assert(s@.subrange(lo as int, hi as int) == ls[k as int]);
        assert(lo < hi ==> ls[k as int][0] == s@[lo as int]);
        if lo < hi && s[lo] == 'n' {
            let rest = sub_chars(s.as_slice(), lo + 1, hi);
            assert(rest@ =~= ls[k as int].drop_first());
            assert(cwd_line_from(ls, k as int) == Some(rest@));
            return Some(string_of(rest.as_slice()));
        }
        k = k + 1;
    }
    None
}

/// The parent process id that `ps -o ppid=` prints.
pub open spec fn ps_ppid(success: bool, out: Seq<char>) -> Option<u32> {
    if success {
        parse_u32_text(out)
    } else {
        None
    }
}

/// The parent process id that `ps` reports.
pub fn ppid_from_ps_output(success: bool, output: &str) -> (ppid: Option<u32>)
    ensures
        ppid == ps_ppid(success, output@),
{
    if !success {
        return None;
    }
    let s = chars_of(output);
    let t = trim_chars(s.as_slice());
    parse_u32_chars(t.as_slice())
}

/// The command line that `ps -o command=` prints, trimmed; none when empty.
pub open spec fn ps_command(success: bool, out: Seq<char>) -> Option<Seq<char>> {
    if success && trim(out).len() > 0 {
        Some(trim(out))
    } else {
        None
    }
}

/// The command line that `ps` reports for a process.
pub fn command_from_ps_output(success: bool, output: &str) -> (cmd: Option<String>)
    ensures
        opt_chars(cmd) == ps_command(success, output@),
{
    if !success {
        return None;
    }
    let s = chars_of(output);
    let t = trim_chars(s.as_slice());
    if t.len() == 0 {
        None
    } else {
        Some(string_of(t.as_slice()))
    }
}

// ---------------------------------------------------------------------------
// Renamed child processes
// ---------------------------------------------------------------------------

/// The first word of `s`, or nothing.
pub open spec fn first_word(s: Seq<char>) -> Seq<char> {
    if words(s).len() > 0 {
        words(s)[0]
    } else {
        Seq::empty()
    }
}

/// A command line that a child process set for itself (`next-server (v16.0.7)`):
/// it carries a version in parentheses, or it is a short bare name, not a path
/// or a script, with no `--` and no `-p` in it. The length counts UTF-8 bytes.
pub open spec fn looks_renamed(cmd: Seq<char>) -> bool {
    ||| has_infix(cmd, seq!['(', 'v']) && has_infix(cmd, seq![')'])
    ||| {
        let first = first_word(cmd);
        &&& !has_infix(first, seq!['/'])
        &&& !has_suffix(first, seq!['.', 'j', 's'])
        &&& !has_suffix(first, seq!['.', 't', 's'])
        &&& encode_utf8(cmd).len() < 50
        &&& !has_infix(cmd, seq!['-', '-'])
        &&& !has_infix(cmd, seq!['-', 'p'])
    }
}

fn pattern(a: char, b: Option<char>, c: Option<char>) -> (v: Vec<char>)
    ensures
        v@ == seq![a] + match b {
            Some(x) => seq![x],
            None => Seq::empty(),
        } + match c {
            Some(x) => seq![x],
            None => Seq::empty(),
        },
{
    let mut v: Vec<char> = Vec::new();
    v.push(a);
    match b {
        Some(x) => v.push(x),
        None => {},
    }
    match c {
        Some(x) => v.push(x),
        None => {},
    }
    proof {
        assert(v@ =~= seq![a] + match b {
            Some(x) => seq![x],
            None => Seq::empty(),
        } + match c {
            Some(x) => seq![x],
            None => Seq::empty(),
        });
    }
    v
}

/// Whether a command line looks like a renamed child process.
pub fn is_renamed_child_process(cmd: &str) -> (b: bool)
    ensures
        b == looks_renamed(cmd@),
{
    let s = chars_of(cmd);
    let open_version = pattern('(', Some('v'), None);
    let close = pattern(')', None, None);
    assert(open_version@ =~= seq!['(', 'v']);
    assert(close@ =~= seq![')']);
    if contains_chars(s.as_slice(), open_version.as_slice()) && contains_chars(
        s.as_slice(),
        close.as_slice(),
    ) {
        return true;
    }
    let spans = word_spans(s.as_slice());
    let first = if spans.len() > 0 {
        let (a, e) = spans[0];
        sub_chars(s.as_slice(), a, e)
    } else {
        Vec::new()
    };
    assert(first@ =~= first_word(cmd@));
    let slash = pattern('/', None, None);
    let js = pattern('.', Some('j'), Some('s'));
    let ts = pattern('.', Some('t'), Some('s'));
    let dashes = pattern('-', Some('-'), None);
    let port_flag = pattern('-', Some('p'), None);
    assert(slash@ =~= seq!['/']);
    assert(js@ =~= seq!['.', 'j', 's']);
    assert(ts@ =~= seq!['.', 't', 's']);
    assert(dashes@ =~= seq!['-', '-']);
    assert(port_flag@ =~= seq!['-', 'p']);
    if !contains_chars(first.as_slice(), slash.as_slice()) && !ends_with_chars(
        first.as_slice(),
        js.as_slice(),
    ) && !ends_with_chars(first.as_slice(), ts.as_slice()) {
        if utf8_len_below(s.as_slice(), 50) && !contains_chars(s.as_slice(), dashes.as_slice()) && !contains_chars(
            s.as_slice(),
            port_flag.as_slice(),
        ) {
            return true;
        }
    }
    false
}

// ---------------------------------------------------------------------------
// The best command line of a process
// ---------------------------------------------------------------------------

/// The command line to show for a process, given its own command line, its
/// parent's process id and the parent's command line: the parent's, when the
/// process looks renamed, the parent is above init and its own command line
/// does not look renamed; otherwise the process's own.
pub open spec fn best_cmdline(
    cmd: Option<Seq<char>>,
    ppid: Option<u32>,
    parent_cmd: Option<Seq<char>>,
) -> Option<Seq<char>> {
    match cmd {
        None => None,
        Some(c) => if looks_renamed(c) && ppid is Some && ppid->0 > 1 && parent_cmd is Some
            && !looks_renamed(parent_cmd->0) {
            parent_cmd
        } else {
            Some(c)
        },
    }
}

/// The command line to show for a process, given what the process tools reported.
pub fn choose_best_cmdline(
    cmd: Option<String>,
    ppid: Option<u32>,
    parent_cmd: Option<String>,
) -> (best: Option<String>)
    ensures
        opt_chars(best) == best_cmdline(opt_chars(cmd), ppid, opt_chars(parent_cmd)),
{
    match cmd {
        None => None,
        Some(c) => {
            if is_renamed_child_process(c.as_str()) {
                match ppid {
                    Some(pp) => {
                        if pp > 1 {
                            match parent_cmd {
                                Some(pc) => {
                                    if !is_renamed_child_process(pc.as_str()) {
                                        return Some(pc);
                                    }
                                },
                                None => {},
                            }
                        }
                    },
                    None => {},
                }
            }
            Some(c)
        },
    }
}

/// The process's own command line was looked at and looks renamed, so its
/// parent is asked for.
pub open spec fn asks_parent(cmd: Option<String>) -> bool {
    cmd is Some && looks_renamed((cmd->0)@)
}

/// The parent is above init, so its command line is asked for.
pub open spec fn asks_parent_cmd(cmd: Option<String>, ppid: Option<u32>) -> bool {
    asks_parent(cmd) && ppid is Some && ppid->0 > 1
}

/// The best command line for process `pid`, walking up to the parent when the
/// process looks like a renamed child. `cmdline_of` reports the command line
/// of a process, `parent_of` its parent's id; they are asked only as needed.
pub fn get_best_cmdline_for_pid<C: Fn(i32) -> Option<String>, P: Fn(u32) -> Option<u32>>(
    pid: i32,
    cmdline_of: &C,
    parent_of: &P,
) -> (best: Option<String>)
    requires
        forall|q: i32| cmdline_of.requires((q,)),
        forall|q: u32| parent_of.requires((q,)),
    ensures
        exists|cmd: Option<String>, ppid: Option<u32>, parent_cmd: Option<String>|
            {
                &&& cmdline_of.ensures((pid,), cmd)
                &&& asks_parent(cmd) ==> parent_of.ensures((pid as u32,), ppid)
                &&& asks_parent_cmd(cmd, ppid) ==> cmdline_of.ensures(
                    ((ppid->0) as i32,),
                    parent_cmd,
                )
                &&& opt_chars(best) == best_cmdline(
                    opt_chars(cmd),
                    ppid,
                    opt_chars(parent_cmd),
                )
            },
{
    let cmd = cmdline_of(pid);
    let ghost cmd0 = cmd;
    let renamed = match &cmd {
        Some(c) => is_renamed_child_process(c.as_str()),
        None => false,
    };
    if !renamed {
        let best = choose_best_cmdline(cmd, None, None);
        assert(opt_chars(best) == best_cmdline(opt_chars(cmd0), None, opt_chars(None::<String>)));
        return best;
    }
    let ppid = parent_of(pid as u32);
    let parent_cmd = match ppid {
        Some(pp) => if pp > 1 {
            cmdline_of(pp as i32)
        } else {
            None
        },
        None => None,
    };
    let ghost pc0 = parent_cmd;
    let best = choose_best_cmdline(cmd, ppid, parent_cmd);
    assert(opt_chars(best) == best_cmdline(opt_chars(cmd0), ppid, opt_chars(pc0)));
    best
}

} // verus!
