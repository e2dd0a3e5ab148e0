//! Which TCP ports a listing of listening sockets names.
use vstd::prelude::*;
use crate::text::{
    chars_of,
    sub_chars,
    line_spans,
    word_spans,
    parse_u16_chars,
    lines,
    words,
    line_spans_from,
    word_spans_from,
    parse_unsigned,
};

verus! {

/// Ports of system and infrastructure services (SSH, DNS, Kerberos, HTTPS,
/// SMB, CUPS, SSDP, MySQL, rapportd, mDNS, PostgreSQL, Redis, AirPlay,
/// MongoDB), which are never development web servers.
pub open spec fn is_system_port(p: u16) -> bool {
    ||| p == 22
    ||| p == 53
    ||| p == 88
    ||| p == 443
    ||| p == 445
    ||| p == 631
    ||| p == 1900
    ||| p == 3306
    ||| p == 3722
    ||| p == 5353
    ||| p == 5432
    ||| p == 6379
    ||| p == 7000
    ||| p == 27017
}

/// The first port of the ephemeral range, which the system hands out.
pub const EPHEMERAL_START: u16 = 49152;

/// Whether `p` is one of the system ports.
pub fn system_port(p: u16) -> (b: bool)
    ensures
        b == is_system_port(p),
{
    p == 22 || p == 53 || p == 88 || p == 443 || p == 445 || p == 631 || p == 1900 || p == 3306
        || p == 3722 || p == 5353 || p == 5432 || p == 6379 || p == 7000 || p == 27017
}

/// The index of the last `:` before index `j`, or -1.
pub open spec fn last_colon(s: Seq<char>, j: int) -> int
    decreases j,
{
    if j <= 0 {
        -1
    } else if s[j - 1] == ':' {
        j - 1
    } else {
        last_colon(s, j - 1)
    }
}

/// The text after the last `:` of `name`, or all of it: the first piece that
/// `rsplit(':')` yields.
pub open spec fn after_last_colon(name: Seq<char>) -> Seq<char> {
    name.subrange(last_colon(name, name.len() as int) + 1, name.len() as int)
}

/// The port that one line of an `lsof` listing names: the second-to-last word
/// is the address (`*:8080`, `127.0.0.1:3000`, `[::1]:3000`) and the port is
/// what follows its last colon. Lines with fewer than two words name none.
pub open spec fn line_port(line: Seq<char>) -> Option<u16> {
    let w = words(line);
    if w.len() < 2 {
        None
    } else {
        match parse_unsigned(after_last_colon(w[w.len() - 2]), 0xffff) {
            Some(v) => Some(v as u16),
            None => None,
        }
    }
}

/// Some line after the header line of `listing` names port `p`.
pub open spec fn port_listed(listing: Seq<char>, p: u16) -> bool {
    exists|k: int| 1 <= k < lines(listing).len() && line_port(#[trigger] lines(listing)[k]) == Some(p)
}

/// A port that can belong to a development server: listed, not a system
/// port, below the ephemeral range.
pub open spec fn is_candidate_port(listing: Seq<char>, p: u16) -> bool {
    port_listed(listing, p) && !is_system_port(p) && p < EPHEMERAL_START
}

proof fn lemma_last_colon(s: Seq<char>, j: int)
    requires
        0 <= j <= s.len(),
    ensures
        -1 <= last_colon(s, j) < j,
        last_colon(s, j) >= 0 ==> s[last_colon(s, j)] == ':',
        forall|k: int| last_colon(s, j) < k < j ==> #[trigger] s[k] != ':',
    decreases j,
{
    if j > 0 && s[j - 1] != ':' {
        lemma_last_colon(s, j - 1);
    }
}

/// The port that one line names.
pub fn port_of_line(line: &[char]) -> (r: Option<u16>)
    ensures
        r == line_port(line@),
{
    let spans = word_spans(line);
    if spans.len() < 2 {
        proof {
            assert(words(line@).len() == spans@.len());
        }
        return None;
    }
    let (a, b) = spans[spans.len() - 2];
    let name = sub_chars(line, a, b);
    proof {
        let w = words(line@);
        assert(w.len() == spans@.len());
        assert(w[w.len() - 2] == line@.subrange(
            word_spans_from(line@, 0)[w.len() - 2].0,
            word_spans_from(line@, 0)[w.len() - 2].1,
        ));
        assert(name@ == w[w.len() - 2]);
    }
    let mut j = name.len();
    while j > 0 && name[j - 1] != ':'
        invariant
            j <= name.len(),
            last_colon(name@, name.len() as int) == last_colon(name@, j as int),
        decreases j,
    {
        j = j - 1;
    }
    proof {
        lemma_last_colon(name@, j as int);
    }
    let tail = sub_chars(name.as_slice(), j, name.len());
    assert(tail@ == after_last_colon(name@));
    match parse_u16_chars(tail.as_slice()) {
        Some(v) => Some(v),
        None => None,
    }
}

/// The ports that a listing of listening TCP sockets (`lsof -iTCP -sTCP:LISTEN
/// -P -n`) names below its header line, without the system ports and the
/// ephemeral range, in increasing order without repetition.
pub fn parse_listening_ports(listing: &str) -> (ports: Vec<u16>)
    ensures
        forall|a: int, b: int| 0 <= a < b < ports@.len() ==> ports@[a] < ports@[b],
        forall|p: u16| ports@.contains(p) <==> is_candidate_port(listing@, p),
{
    let s = chars_of(listing);
    let spans = line_spans(s.as_slice());
    let ghost ls = lines(s@);
    assert(ls.len() == spans@.len());
    let mut seen: Vec<bool> = Vec::new();
    while seen.len() < 49152
        invariant
            seen.len() <= 49152,
            forall|q: int| 0 <= q < seen.len() ==> !(#[trigger] seen@[q]),
        decreases 49152 - seen.len(),
    {
        seen.push(false);
    }
    let mut k: usize = 1;
    while k < spans.len()
        invariant
            1 <= k,
            ls == lines(s@),
            s@ == listing@,
            ls.len() == spans@.len(),
            spans@.len() == line_spans_from(s@, 0).len(),
            forall|m: int|
                0 <= m < spans@.len() ==> {
                    &&& (#[trigger] spans@[m]).0 == line_spans_from(s@, 0)[m].0
                    &&& spans@[m].1 == line_spans_from(s@, 0)[m].1
                    &&& spans@[m].0 <= spans@[m].1 <= s.len()
                },
            seen.len() == 49152,
            forall|q: u16|
                q < 49152 ==> (#[trigger] seen@[q as int] <==> (!is_system_port(q) && exists|m: int|
                    1 <= m < k && m < ls.len() && line_port(#[trigger] ls[m]) == Some(q))),
        decreases spans.len() - k,
    {
        let (lo, hi) = spans[k];
        let line = sub_chars(s.as_slice(), lo, hi);
        assert(line@ == ls[k as int]);
        let found = port_of_line(line.as_slice());
        let ghost before = seen@;
        match found {
            Some(p) => {
                if p < EPHEMERAL_START && !system_port(p) {
                    seen.set(p as usize, true);
                }
            },
            None => {},
        }
        proof {
            assert forall|q: u16| q < 49152 implies (#[trigger] seen@[q as int] <==> (
            !is_system_port(q) && exists|m: int|
                1 <= m < k + 1 && m < ls.len() && line_port(#[trigger] ls[m]) == Some(q))) by {
                if !is_system_port(q) && exists|m: int|
                    1 <= m < k + 1 && m < ls.len() && line_port(#[trigger] ls[m]) == Some(q) {
                    let m = choose|m: int|
                        1 <= m < k + 1 && m < ls.len() && line_port(#[trigger] ls[m]) == Some(q);
                    if m < k {
                        assert(before[q as int]);
                    }
                }
            }
        }
        k = k + 1;
    }
    let mut ports: Vec<u16> = Vec::new();
    let mut p: usize = 0;
    while p < 49152
        invariant
            p <= 49152,
            seen.len() == 49152,
            forall|a: int, b: int| 0 <= a < b < ports@.len() ==> ports@[a] < ports@[b],
            forall|a: int| 0 <= a < ports@.len() ==> (#[trigger] ports@[a]) < p,
            forall|q: u16| q < p ==> (ports@.contains(q) <==> #[trigger] seen@[q as int]),
        decreases 49152 - p,
    {
        let ghost before = ports@;
        if seen[p] {
            ports.push(p as u16);
        }
        proof {
            assert forall|q: u16| q < p + 1 implies (ports@.contains(q) <==> #[trigger] seen@[q as int]) by {
                if ports@.contains(q) && q < p {
                    let a = choose|a: int| 0 <= a < ports@.len() && ports@[a] == q;
                    if a < before.len() {
                        assert(before[a] == q);
                    }
                }
                if q < p && before.contains(q) {
                    let a = choose|a: int| 0 <= a < before.len() && before[a] == q;
                    assert(ports@[a] == q);
                }
                if q == p && seen@[q as int] {
                    assert(ports@[ports@.len() - 1] == q);
                }
                if q == p && ports@.contains(q) {
                    let a = choose|a: int| 0 <= a < ports@.len() && ports@[a] == q;
                    if a < before.len() {
                        assert(before[a] < p);
                    }
                }
            }
        }
        p = p + 1;
    }
    proof {
        assert forall|q: u16| ports@.contains(q) <==> is_candidate_port(listing@, q) by {
            if ports@.contains(q) {
                let a = choose|a: int| 0 <= a < ports@.len() && ports@[a] == q;
                assert(ports@[a] < 49152);
            }
            if q < 49152 && seen@[q as int] {
                let m = choose|m: int|
                    1 <= m < k && m < ls.len() && line_port(#[trigger] ls[m]) == Some(q);
                assert(port_listed(listing@, q));
            }
            if is_candidate_port(listing@, q) {
                let m = choose|m: int|
                    1 <= m < lines(listing@).len() && line_port(#[trigger] lines(listing@)[m])
                        == Some(q);
                assert(line_port(ls[m]) == Some(q));
            }
        }
    }
    ports
}

} // verus!
