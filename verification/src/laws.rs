//! Properties of the library that span several calls or hold of every input.
use vstd::prelude::*;
use crate::server::{
    ServerModel,
    merge_model,
    merged_entry,
    new_servers,
    running_paths,
    last_with_path,
    path_listed,
    claimed_before,
    refreshed,
    retired,
    unsaved,
    latest_in,
    lemma_last_with_path,
    lemma_running_paths_distinct,
    rename_model,
    find_path_from,
    label_of,
};
use crate::text::{
    decimal,
    digits_value,
    digit_char,
    digit_of,
    all_digits,
    is_digit,
    parse_unsigned,
    unsigned_digits,
    is_ws,
    skip_ws,
    back_ws,
    trim,
};
use crate::page::{page_server, localhost_url};
use crate::commands::greeting;

verus! {

/// What a filter keeps comes from the filtered sequence and passes the test;
/// filtering a sequence without duplicates gives one without duplicates.
pub proof fn lemma_filter_distinct<A>(s: Seq<A>, pred: spec_fn(A) -> bool)
    requires
        s.no_duplicates(),
    ensures
        s.filter(pred).no_duplicates(),
        forall|k: int|
            0 <= k < s.filter(pred).len() ==> s.contains(#[trigger] s.filter(pred)[k]) && pred(
                s.filter(pred)[k],
            ),
    decreases s.len(),
{
    reveal(Seq::filter);
    if s.len() > 0 {
        let rest = s.drop_last();
        assert forall|a: int, b: int| 0 <= a < rest.len() && 0 <= b < rest.len() && a != b implies rest[a]
            != rest[b] by {
            assert(rest[a] == s[a] && rest[b] == s[b]);
        }
        lemma_filter_distinct(rest, pred);
        let sub = rest.filter(pred);
        assert forall|k: int| 0 <= k < sub.len() implies s.contains(#[trigger] sub[k]) by {
            let j = choose|j: int| 0 <= j < rest.len() && rest[j] == sub[k];
            assert(s[j] == sub[k]);
        }
        if pred(s.last()) {
            let out = sub.push(s.last());
            assert forall|k: int| 0 <= k < sub.len() implies #[trigger] sub[k] != s.last() by {
                let j = choose|j: int| 0 <= j < rest.len() && rest[j] == sub[k];
                assert(s[j] == sub[k]);
                assert(j != s.len() - 1);
            }
            assert forall|a: int, b: int| 0 <= a < out.len() && 0 <= b < out.len() && a != b implies out[a]
                != out[b] by {
                if a == sub.len() {
                    assert(out[b] == sub[b]);
                } else if b == sub.len() {
                    assert(out[a] == sub[a]);
                } else {
                    assert(out[a] == sub[a] && out[b] == sub[b]);
                }
            }
            assert forall|k: int| 0 <= k < out.len() implies s.contains(#[trigger] out[k]) && pred(
                out[k],
            ) by {
                if k < sub.len() {
                    assert(out[k] == sub[k]);
                } else {
                    assert(s[s.len() - 1] == out[k]);
                }
            }
        }
    }
}

/// The first saved entry with path `p`.
pub proof fn lemma_first_with_path(ps: Seq<ServerModel>, p: Seq<char>) -> (j: int)
    requires
        path_listed(ps, p),
    ensures
        0 <= j < ps.len(),
        ps[j].path == Some(p),
        !claimed_before(ps, j, p),
    decreases ps.len(),
{
    let rest = ps.drop_last();
    if path_listed(rest, p) {
        let j = lemma_first_with_path(rest, p);
        if claimed_before(ps, j, p) {
            let k = choose|k: int| 0 <= k < j && #[trigger] ps[k].path == Some(p);
            assert(rest[k].path == Some(p));
        }
        j
    } else {
        let j = choose|j: int| 0 <= j < ps.len() && #[trigger] ps[j].path == Some(p);
        if j < ps.len() - 1 {
            assert(rest[j].path == Some(p));
        }
        if claimed_before(ps, ps.len() - 1, p) {
            let k = choose|k: int| 0 <= k < ps.len() - 1 && #[trigger] ps[k].path == Some(p);
            assert(rest[k].path == Some(p));
        }
        ps.len() - 1
    }
}

/// Facts about the list that a scan produces, used by the laws below.
proof fn lemma_merge_shape(ps: Seq<ServerModel>, r: Seq<ServerModel>)
    ensures
        ({
            let m = merge_model(ps, r);
            let f = running_paths(r).filter(unsaved(ps));
            &&& f.no_duplicates()
            &&& m.len() == ps.len() + f.len()
            &&& forall|j: int| 0 <= j < ps.len() ==> (#[trigger] m[j]).path == ps[j].path
            &&& forall|j: int| 0 <= j < ps.len() ==> (#[trigger] m[j]) == merged_entry(ps, j, r)
            &&& forall|k: int|
                0 <= k < f.len() ==> {
                    &&& m[ps.len() + k] == last_with_path(r, #[trigger] f[k])->0
                    &&& last_with_path(r, f[k]) is Some
                    &&& m[ps.len() + k].path == Some(f[k])
                    &&& !path_listed(ps, f[k])
                    &&& running_paths(r).contains(f[k])
                }
        }),
{
    let m = merge_model(ps, r);
    let f = running_paths(r).filter(unsaved(ps));
    lemma_running_paths_distinct(r);
    lemma_filter_distinct(running_paths(r), unsaved(ps));
    assert forall|j: int| 0 <= j < ps.len() implies (#[trigger] m[j]).path == ps[j].path by {
        match ps[j].path {
            Some(p) => {
                lemma_last_with_path(r, p);
            },
            None => {},
        }
    }
    assert forall|k: int| 0 <= k < f.len() implies {
        &&& m[ps.len() + k] == last_with_path(r, #[trigger] f[k])->0
        &&& last_with_path(r, f[k]) is Some
        &&& m[ps.len() + k].path == Some(f[k])
        &&& !path_listed(ps, f[k])
        &&& running_paths(r).contains(f[k])
    } by {
        lemma_last_with_path(r, f[k]);
        assert(unsaved(ps)(f[k]));
        assert(new_servers(ps, r)[k] == latest_in(r)(f[k]));
    }
}

/// A scan keeps every saved entry in its place, with its path and its label.
pub proof fn law_scan_keeps_saved_entries(ps: Seq<ServerModel>, r: Seq<ServerModel>)
    ensures
        merge_model(ps, r).len() >= ps.len(),
        forall|i: int|
            0 <= i < ps.len() ==> {
                &&& (#[trigger] merge_model(ps, r)[i]).path == ps[i].path
                &&& merge_model(ps, r)[i].custom_name == ps[i].custom_name
            },
{
    lemma_merge_shape(ps, r);
}

/// After a scan, a saved entry that is not found among the running servers
/// (it has no working directory, or no running server reports its working
/// directory) is inactive and has no process id; its other fields are unchanged.
pub proof fn law_scan_retires_stopped_servers(ps: Seq<ServerModel>, r: Seq<ServerModel>, i: int)
    requires
        0 <= i < ps.len(),
        ps[i].path is None || !path_listed(r, ps[i].path->0),
    ensures
        merge_model(ps, r)[i] == retired(ps[i]),
        !merge_model(ps, r)[i].active,
        merge_model(ps, r)[i].pid is None,
{
    if ps[i].path is Some {
        lemma_last_with_path(r, ps[i].path->0);
    }
    lemma_merge_shape(ps, r);
}

/// The working directory identifies a server: when no two saved entries share
/// a path, no two entries share a path after a scan either.
pub proof fn law_scan_keeps_paths_distinct(ps: Seq<ServerModel>, r: Seq<ServerModel>)
    requires
        forall|a: int, b: int|
            0 <= a < ps.len() && 0 <= b < ps.len() && a != b && ps[a].path is Some ==> ps[a].path
                != ps[b].path,
    ensures
        ({
            let m = merge_model(ps, r);
            forall|a: int, b: int|
                0 <= a < m.len() && 0 <= b < m.len() && a != b && m[a].path is Some ==> m[a].path
                    != m[b].path
        }),
{
    let m = merge_model(ps, r);
    let n = ps.len() as int;
    let f = running_paths(r).filter(unsaved(ps));
    lemma_merge_shape(ps, r);
    assert forall|a: int, b: int|
        0 <= a < m.len() && 0 <= b < m.len() && a != b && m[a].path is Some implies m[a].path
            != m[b].path by {
        if a < n && b < n {
            assert(m[a].path == ps[a].path && m[b].path == ps[b].path);
        } else if a >= n && b >= n {
            assert(m[n + (a - n)].path == Some(f[a - n]));
            assert(m[n + (b - n)].path == Some(f[b - n]));
        } else if a < n {
            assert(m[n + (b - n)].path == Some(f[b - n]));
            assert(!path_listed(ps, f[b - n]));
            if m[a].path == m[b].path {
                assert(ps[a].path == Some(f[b - n]));
            }
        } else {
            assert(m[n + (a - n)].path == Some(f[a - n]));
            assert(!path_listed(ps, f[a - n]));
            if m[a].path == m[b].path {
                assert(ps[b].path == Some(f[a - n]));
            }
        }
    }
}

/// After a scan, every working directory that a running server reports is
/// listed, with the scanned fields of the latest report for it.
pub proof fn law_scan_lists_running_servers(
    ps: Seq<ServerModel>,
    r: Seq<ServerModel>,
    p: Seq<char>,
) -> (i: int)
    requires
        path_listed(r, p),
    ensures
        0 <= i < merge_model(ps, r).len(),
        merge_model(ps, r)[i].path == Some(p),
        refreshed(merge_model(ps, r)[i], last_with_path(r, p)->0) == merge_model(ps, r)[i],
{
    let m = merge_model(ps, r);
    let f = running_paths(r).filter(unsaved(ps));
    lemma_last_with_path(r, p);
    lemma_merge_shape(ps, r);
    if path_listed(ps, p) {
        let j = lemma_first_with_path(ps, p);
        assert(m[j] == merged_entry(ps, j, r));
        j
    } else {
        let k0 = choose|k: int| 0 <= k < running_paths(r).len() && running_paths(r)[k] == p;
        running_paths(r).lemma_filter_contains(unsaved(ps), k0);
        let k = choose|k: int| 0 <= k < f.len() && f[k] == p;
        assert(m[ps.len() + k] == last_with_path(r, f[k])->0);
        ps.len() + k
    }
}

/// Scanning twice with the same running servers gives the list of the first scan.
pub proof fn law_rescan_is_stable(ps: Seq<ServerModel>, r: Seq<ServerModel>)
    ensures
        merge_model(merge_model(ps, r), r) == merge_model(ps, r),
{
    let m = merge_model(ps, r);
    let n = ps.len() as int;
    let f = running_paths(r).filter(unsaved(ps));
    let rp = running_paths(r);
    lemma_merge_shape(ps, r);
    lemma_running_paths_distinct(r);
    // Every running path is listed in the first result, so the second scan adds nothing.
    assert forall|k: int| 0 <= k < rp.len() implies path_listed(m, #[trigger] rp[k]) by {
        let p = rp[k];
        if path_listed(ps, p) {
            let j = choose|j: int| 0 <= j < ps.len() && #[trigger] ps[j].path == Some(p);
            assert(m[j].path == Some(p));
        } else {
            rp.lemma_filter_contains(unsaved(ps), k);
            let k2 = choose|k2: int| 0 <= k2 < f.len() && f[k2] == p;
            assert(m[n + k2].path == Some(f[k2]));
        }
    }
    lemma_filter_distinct(rp, unsaved(m));
    if rp.filter(unsaved(m)).len() > 0 {
        let q = rp.filter(unsaved(m))[0];
        let k = choose|k: int| 0 <= k < rp.len() && rp[k] == q;
        assert(path_listed(m, rp[k]));
    }
    assert(new_servers(m, r) =~= Seq::<ServerModel>::empty());
    // Every entry of the first result is its own merge.
    assert forall|i: int| 0 <= i < m.len() implies merged_entry(m, i, r) == #[trigger] m[i] by {
        if i < n {
            match ps[i].path {
                Some(p) => {
                    lemma_last_with_path(r, p);
                    if claimed_before(m, i, p) {
                        let j = choose|j: int| 0 <= j < i && #[trigger] m[j].path == Some(p);
                        assert(ps[j].path == Some(p));
                    }
                    if claimed_before(ps, i, p) {
                        let j = choose|j: int| 0 <= j < i && #[trigger] ps[j].path == Some(p);
                        assert(m[j].path == Some(p));
                    }
                },
                None => {},
            }
        } else {
            let k = i - n;
            let p = f[k];
            lemma_last_with_path(r, p);
            if claimed_before(m, i, p) {
                let j = choose|j: int| 0 <= j < i && #[trigger] m[j].path == Some(p);
                if j < n {
                    assert(ps[j].path == Some(p));
                    assert(path_listed(ps, p));
                } else {
                    assert(m[n + (j - n)].path == Some(f[j - n]));
                    assert(f[j - n] != f[k]);
                }
            }
        }
    }
    assert(merge_model(m, r) =~= m);
}

/// The entry that a rename finds: the first one with the path.
proof fn lemma_find_path_from(s: Seq<ServerModel>, p: Seq<char>, k: int)
    requires
        0 <= k,
    ensures
        find_path_from(s, p, k) matches Some(i) ==> k <= i < s.len() && s[i].path == Some(p) && forall|j: int| k <= j < i ==> #[trigger] s[j].path != Some(p),
        find_path_from(s, p, k) is None ==> forall|j: int| k <= j < s.len() ==> #[trigger] s[j].path != Some(p),
    decreases s.len() - k,
{
    if k < s.len() && s[k].path != Some(p) {
        lemma_find_path_from(s, p, k + 1);
    }
}

/// A label set by a rename survives every later scan.
pub proof fn law_label_survives_scan(
    ps: Seq<ServerModel>,
    p: Seq<char>,
    name: Option<Seq<char>>,
    r: Seq<ServerModel>,
)
    requires
        rename_model(ps, p, name) is Some,
    ensures
        ({
            let i = find_path_from(ps, p, 0)->0;
            let renamed = rename_model(ps, p, name)->0;
            &&& 0 <= i < merge_model(renamed, r).len()
            &&& merge_model(renamed, r)[i].custom_name == label_of(name)
            &&& merge_model(renamed, r)[i].path == Some(p)
        }),
{
    lemma_find_path_from(ps, p, 0);
    let renamed = rename_model(ps, p, name)->0;
    law_scan_keeps_saved_entries(renamed, r);
}

/// Renaming twice with the same name gives what renaming once gave.
pub proof fn law_rename_is_idempotent(ps: Seq<ServerModel>, p: Seq<char>, name: Option<Seq<char>>)
    requires
        rename_model(ps, p, name) is Some,
    ensures
        rename_model(rename_model(ps, p, name)->0, p, name) == rename_model(ps, p, name),
{
    let once = rename_model(ps, p, name)->0;
    lemma_find_path_from(ps, p, 0);
    lemma_find_path_from(once, p, 0);
    let i = find_path_from(ps, p, 0)->0;
    assert(once[i].path == Some(p));
    if find_path_from(once, p, 0) != Some(i) {
        match find_path_from(once, p, 0) {
            Some(j) => {
                assert(once[j].path == ps[j].path);
            },
            None => {},
        }
    }
    assert(once.update(i, ServerModel { custom_name: label_of(name), ..once[i] }) =~= once);
}

proof fn lemma_digit_char(k: int)
    requires
        0 <= k < 10,
    ensures
        is_digit(digit_char(k)),
        digit_of(digit_char(k)) == k,
        digit_char(k) != '+',
{
    assert('0' as u32 == 48);
    assert('1' as u32 == 49);
    assert('2' as u32 == 50);
    assert('3' as u32 == 51);
    assert('4' as u32 == 52);
    assert('5' as u32 == 53);
    assert('6' as u32 == 54);
    assert('7' as u32 == 55);
    assert('8' as u32 == 56);
    assert('9' as u32 == 57);
}

pub proof fn lemma_decimal_digits(n: nat)
    ensures
        decimal(n).len() > 0,
        all_digits(decimal(n)),
        digits_value(decimal(n)) == n,
    decreases n,
{
    lemma_digit_char((n % 10) as int);
    if n >= 10 {
        lemma_decimal_digits(n / 10);
        assert(n == (n / 10) * 10 + n % 10);
        let d = decimal(n);
        assert(d.drop_last() =~= decimal(n / 10));
        assert(d.last() == digit_char((n % 10) as int));
        assert(digits_value(d) == digits_value(decimal(n / 10)) * 10 + digit_of(digit_char((n % 10) as int)));
        assert forall|i: int| 0 <= i < d.len() implies is_digit(#[trigger] d[i]) by {
            if i < d.len() - 1 {
                assert(d[i] == decimal(n / 10)[i]);
            }
        }
    } else {
        assert(n % 10 == n);
        assert(decimal(n).drop_last() =~= Seq::<char>::empty());
        assert(decimal(n).last() == digit_char(n as int));
        assert(digits_value(decimal(n)) == digits_value(Seq::<char>::empty()) * 10 + digit_of(digit_char(n as int)));
    }
}

/// A number written in decimal reads back as the same number: the port in a
/// server's address and the process id handed to `kill` parse back to themselves.
pub proof fn law_decimal_parses_back(n: nat, max: int)
    requires
        n <= max,
    ensures
        parse_unsigned(decimal(n), max) == Some(n as int),
{
    lemma_decimal_digits(n);
    assert(is_digit(decimal(n)[0]));
    assert(decimal(n)[0] != '+');
    assert(unsigned_digits(decimal(n)) == decimal(n));
}

// ---------------------------------------------------------------------------
// Trimming
// ---------------------------------------------------------------------------

/// Every character of `s` is whitespace.
pub open spec fn all_whitespace(s: Seq<char>) -> bool {
    forall|i: int| 0 <= i < s.len() ==> is_ws(#[trigger] s[i])
}

proof fn lemma_skip_ws_to(s: Seq<char>, i: int, a: int)
    requires
        0 <= i <= a <= s.len(),
        forall|k: int| i <= k < a ==> is_ws(#[trigger] s[k]),
        a == s.len() || !is_ws(s[a]),
    ensures
        skip_ws(s, i) == a,
    decreases a - i,
{
    if i < a {
        lemma_skip_ws_to(s, i + 1, a);
    }
}

proof fn lemma_back_ws_to(s: Seq<char>, lo: int, b: int, hi: int)
    requires
        0 <= lo <= b <= hi <= s.len(),
        forall|k: int| b <= k < hi ==> is_ws(#[trigger] s[k]),
        b == lo || !is_ws(s[b - 1]),
    ensures
        back_ws(s, lo, hi) == b,
    decreases hi - b,
{
    if b < hi {
        lemma_back_ws_to(s, lo, b, hi - 1);
    }
}

/// Trimming removes exactly the whitespace around the text: for any text that
/// starts and ends with a non-whitespace character, surrounded by whitespace,
/// the trimmed result is that text, every character kept.
pub proof fn law_trim_removes_surrounding_whitespace(
    before: Seq<char>,
    core: Seq<char>,
    after: Seq<char>,
)
    requires
        all_whitespace(before),
        all_whitespace(after),
        core.len() > 0,
        !is_ws(core[0]),
        !is_ws(core[core.len() - 1]),
    ensures
        trim(before + core + after) == core,
{
    let s = before + core + after;
    let a = before.len() as int;
    let b = a + core.len();
    assert forall|k: int| 0 <= k < a implies is_ws(#[trigger] s[k]) by {
        assert(s[k] == before[k]);
    }
    assert(s[a] == core[0]);
    lemma_skip_ws_to(s, 0, a);
    assert forall|k: int| b <= k < s.len() implies is_ws(#[trigger] s[k]) by {
        assert(s[k] == after[k - b]);
    }
    assert(s[b - 1] == core[core.len() - 1]);
    lemma_back_ws_to(s, a, b, s.len() as int);
    assert(s.subrange(a, b) =~= core);
}

/// Trimming text that is all whitespace leaves nothing.
pub proof fn law_trim_of_whitespace_is_empty(s: Seq<char>)
    requires
        all_whitespace(s),
    ensures
        trim(s).len() == 0,
{
    lemma_skip_ws_to(s, 0, s.len() as int);
}

/// Trimming keeps text without surrounding whitespace as it is.
pub proof fn law_trim_keeps_trimmed_text(core: Seq<char>)
    requires
        core.len() > 0,
        !is_ws(core[0]),
        !is_ws(core[core.len() - 1]),
    ensures
        trim(core) == core,
{
    law_trim_removes_surrounding_whitespace(Seq::empty(), core, Seq::empty());
    assert(Seq::<char>::empty() + core + Seq::<char>::empty() =~= core);
}

// ---------------------------------------------------------------------------
// Page entries and labels
// ---------------------------------------------------------------------------

/// A page's title is shown whole, only the whitespace around it removed.
pub proof fn law_page_title_is_whole_trimmed_title(
    port: u16,
    before: Seq<char>,
    core: Seq<char>,
    after: Seq<char>,
)
    requires
        all_whitespace(before),
        all_whitespace(after),
        core.len() > 0,
        !is_ws(core[0]),
        !is_ws(core[core.len() - 1]),
    ensures
        page_server(port, Some(before + core + after)).title == core,
        page_server(port, Some(before + core + after)).port == port,
        page_server(port, Some(before + core + after)).active,
{
    law_trim_removes_surrounding_whitespace(before, core, after);
}

/// A page without a title is shown as "Unknown Server".
pub proof fn law_page_without_title_is_unknown_server(port: u16)
    ensures
        page_server(port, None).title == seq![
            'U', 'n', 'k', 'n', 'o', 'w', 'n', ' ', 'S', 'e', 'r', 'v', 'e', 'r',
        ],
{
    reveal_strlit("Unknown Server");
    let t = seq!['U', 'n', 'k', 'n', 'o', 'w', 'n', ' ', 'S', 'e', 'r', 'v', 'e', 'r'];
    assert("Unknown Server"@ =~= t);
    assert(('U' as u32) == 85);
    assert(('r' as u32) == 114);
    law_trim_keeps_trimmed_text(t);
}

/// Renaming with a name that has text in it sets the label to that text, every
/// character kept, only the surrounding whitespace removed; the list keeps its
/// length and every other entry, and the renamed entry keeps its other fields.
pub proof fn law_rename_sets_whole_trimmed_label(
    s: Seq<ServerModel>,
    p: Seq<char>,
    i: int,
    before: Seq<char>,
    core: Seq<char>,
    after: Seq<char>,
)
    requires
        0 <= i < s.len(),
        s[i].path == Some(p),
        forall|j: int| 0 <= j < i ==> #[trigger] s[j].path != Some(p),
        all_whitespace(before),
        all_whitespace(after),
        core.len() > 0,
        !is_ws(core[0]),
        !is_ws(core[core.len() - 1]),
    ensures
        rename_model(s, p, Some(before + core + after)) is Some,
        ({
            let v = rename_model(s, p, Some(before + core + after))->0;
            &&& v.len() == s.len()
            &&& v[i].custom_name == Some(core)
            &&& v[i] == (ServerModel { custom_name: Some(core), ..s[i] })
            &&& forall|j: int| 0 <= j < s.len() && j != i ==> #[trigger] v[j] == s[j]
        }),
{
    lemma_find_path_from(s, p, 0);
    law_trim_removes_surrounding_whitespace(before, core, after);
    if find_path_from(s, p, 0) != Some(i) {
        match find_path_from(s, p, 0) {
            Some(j) => {
                if j > i {
                    assert(s[i].path != Some(p));
                }
            },
            None => {
                assert(s[i].path != Some(p));
            },
        }
    }
}

/// Renaming with a blank name, or with none, clears the label.
pub proof fn law_rename_blank_name_clears_label(
    s: Seq<ServerModel>,
    p: Seq<char>,
    i: int,
    name: Option<Seq<char>>,
)
    requires
        0 <= i < s.len(),
        s[i].path == Some(p),
        forall|j: int| 0 <= j < i ==> #[trigger] s[j].path != Some(p),
        name matches Some(n) ==> all_whitespace(n),
    ensures
        rename_model(s, p, name) is Some,
        (rename_model(s, p, name)->0)[i].custom_name is None,
        (rename_model(s, p, name)->0).len() == s.len(),
{
    lemma_find_path_from(s, p, 0);
    match name {
        Some(n) => {
            law_trim_of_whitespace_is_empty(n);
        },
        None => {},
    }
    if find_path_from(s, p, 0) != Some(i) {
        match find_path_from(s, p, 0) {
            Some(j) => {
                if j > i {
                    assert(s[i].path != Some(p));
                }
            },
            None => {
                assert(s[i].path != Some(p));
            },
        }
    }
}

/// Renaming a path that no entry has fails.
pub proof fn law_rename_of_unknown_path_fails(
    s: Seq<ServerModel>,
    p: Seq<char>,
    name: Option<Seq<char>>,
)
    requires
        forall|j: int| 0 <= j < s.len() ==> #[trigger] s[j].path != Some(p),
    ensures
        rename_model(s, p, name) is None,
{
    lemma_find_path_from(s, p, 0);
}

/// A server's address ends in its port: after `http://localhost:` comes text
/// that reads back as the port.
pub proof fn law_url_names_the_port(port: u16)
    ensures
        localhost_url(port).len() > 17,
        localhost_url(port).subrange(0, 17) == seq![
            'h', 't', 't', 'p', ':', '/', '/', 'l', 'o', 'c', 'a', 'l', 'h', 'o', 's', 't', ':',
        ],
        parse_unsigned(localhost_url(port).skip(17), 0xffff) == Some(port as int),
{
    reveal_strlit("http://localhost:");
    lemma_decimal_digits(port as nat);
    assert(localhost_url(port).skip(17) =~= decimal(port as nat));
    assert(localhost_url(port).subrange(0, 17) =~= seq![
        'h', 't', 't', 'p', ':', '/', '/', 'l', 'o', 'c', 'a', 'l', 'h', 'o', 's', 't', ':',
    ]);
    law_decimal_parses_back(port as nat, 0xffff);
}

/// The greeting holds the whole name, right after "Hello, ".
pub proof fn law_greeting_holds_the_name(name: Seq<char>)
    ensures
        greeting(name).len() == name.len() + 39,
        greeting(name).subrange(7, 7 + name.len() as int) == name,
        greeting(name).subrange(0, 7) == seq!['H', 'e', 'l', 'l', 'o', ',', ' '],
{
    reveal_strlit("Hello, ");
    reveal_strlit("! You've been greeted from Rust!");
    assert(greeting(name).subrange(7, 7 + name.len() as int) =~= name);
    assert(greeting(name).subrange(0, 7) =~= seq!['H', 'e', 'l', 'l', 'o', ',', ' ']);
}

} // verus!
