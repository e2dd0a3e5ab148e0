use vstd::prelude::*;
use crate::text::{trim, trim_str, push_str};

verus! {

/// One development server as the dashboard lists it.
///
/// The working directory (`path`) identifies a server across scans;
/// `custom_name` is the user's label and is never overwritten by a scan.
#[derive(Clone, Debug)]
pub struct ServerInfo {
    pub port: u16,
    pub title: String,
    pub url: String,
    pub pid: Option<u32>,
    pub path: Option<String>,
    pub command: Option<String>,
    pub active: bool,
    pub custom_name: Option<String>,
}

/// The mathematical model of a [`ServerInfo`]: strings become character sequences.
pub struct ServerModel {
    pub port: u16,
    pub title: Seq<char>,
    pub url: Seq<char>,
    pub pid: Option<u32>,
    pub path: Option<Seq<char>>,
    pub command: Option<Seq<char>>,
    pub active: bool,
    pub custom_name: Option<Seq<char>>,
}

/// The characters of an optional string.
pub open spec fn opt_chars(o: Option<String>) -> Option<Seq<char>> {
    match o {
        Some(s) => Some(s@),
        None => None,
    }
}

impl View for ServerInfo {
    type V = ServerModel;

    open spec fn view(&self) -> ServerModel {
        ServerModel {
            port: self.port,
            title: self.title@,
            url: self.url@,
            pid: self.pid,
            path: opt_chars(self.path),
            command: opt_chars(self.command),
            active: self.active,
            custom_name: opt_chars(self.custom_name),
        }
    }
}

/// The models of a list of servers.
pub open spec fn models(v: Seq<ServerInfo>) -> Seq<ServerModel> {
    v.map_values(|s: ServerInfo| s@)
}

/// Copies an optional string.
pub fn copy_opt_string(o: &Option<String>) -> (c: Option<String>)
    ensures
        opt_chars(c) == opt_chars(*o),
{
    match o {
        Some(s) => Some(s.clone()),
        None => None,
    }
}

/// Copies a server entry field by field.
pub fn copy_server(s: &ServerInfo) -> (c: ServerInfo)
    ensures
        c@ == s@,
{
    ServerInfo {
        port: s.port,
        title: s.title.clone(),
        url: s.url.clone(),
        pid: s.pid,
        path: copy_opt_string(&s.path),
        command: copy_opt_string(&s.command),
        active: s.active,
        custom_name: copy_opt_string(&s.custom_name),
    }
}

/// Whether an optional path is exactly `p`.
pub fn path_is(path: &Option<String>, p: &String) -> (b: bool)
    ensures
        b == (opt_chars(*path) == Some(p@)),
{
    match path {
        Some(q) => *q == *p,
        None => false,
    }
}

// ---------------------------------------------------------------------------
// The merge of a scan into the saved list
// ---------------------------------------------------------------------------

/// The last running server whose path is `p`, if any: a later report for the
/// same working directory replaces an earlier one.
pub open spec fn last_with_path(r: Seq<ServerModel>, p: Seq<char>) -> Option<ServerModel>
    decreases r.len(),
{
    if r.len() == 0 {
        None
    } else if r.last().path == Some(p) {
        Some(r.last())
    } else {
        last_with_path(r.drop_last(), p)
    }
}

/// Some entry of `s` has path `p`.
pub open spec fn path_listed(s: Seq<ServerModel>, p: Seq<char>) -> bool {
    exists|j: int| 0 <= j < s.len() && #[trigger] s[j].path == Some(p)
}

/// Some entry of `ps` before index `i` has path `p`.
pub open spec fn claimed_before(ps: Seq<ServerModel>, i: int, p: Seq<char>) -> bool {
    exists|j: int| 0 <= j < i && #[trigger] ps[j].path == Some(p)
}

/// A saved entry refreshed from a running server: every scanned field is taken
/// from the running server, the user's label is kept.
pub open spec fn refreshed(saved: ServerModel, running: ServerModel) -> ServerModel {
    ServerModel { custom_name: saved.custom_name, ..running }
}

/// A saved entry whose server is not running: inactive, without a process id;
/// every other field is kept.
pub open spec fn retired(saved: ServerModel) -> ServerModel {
    ServerModel { active: false, pid: None, ..saved }
}

/// What the merge makes of the saved entry at index `i`.
///
/// The first saved entry with a given path takes the running server with that
/// path, if there is one; every other saved entry, with or without a path, is
/// not found among the running servers and is retired.
pub open spec fn merged_entry(ps: Seq<ServerModel>, i: int, r: Seq<ServerModel>) -> ServerModel {
    match ps[i].path {
        None => retired(ps[i]),
        Some(p) => if !claimed_before(ps, i, p) && last_with_path(r, p) is Some {
            refreshed(ps[i], last_with_path(r, p)->0)
        } else {
            retired(ps[i])
        },
    }
}

/// The distinct paths of the running servers, in the order of first appearance.
pub open spec fn running_paths(r: Seq<ServerModel>) -> Seq<Seq<char>>
    decreases r.len(),
{
    if r.len() == 0 {
        Seq::empty()
    } else {
        let rest = running_paths(r.drop_last());
        match r.last().path {
            Some(p) => if rest.contains(p) {
                rest
            } else {
                rest.push(p)
            },
            None => rest,
        }
    }
}

/// The running servers whose path no saved entry has, one per path.
pub open spec fn new_servers(ps: Seq<ServerModel>, r: Seq<ServerModel>) -> Seq<ServerModel> {
    running_paths(r).filter(unsaved(ps)).map_values(latest_in(r))
}

/// The paths that no entry of `ps` has.
pub open spec fn unsaved(ps: Seq<ServerModel>) -> spec_fn(Seq<char>) -> bool {
    |p: Seq<char>| !path_listed(ps, p)
}

/// The latest running server with a given path.
pub open spec fn latest_in(r: Seq<ServerModel>) -> spec_fn(Seq<char>) -> ServerModel {
    |p: Seq<char>| last_with_path(r, p)->0
}

/// The list after a scan: every saved entry in its place, merged with what runs,
/// then the running servers that were not saved yet.
pub open spec fn merge_model(ps: Seq<ServerModel>, r: Seq<ServerModel>) -> Seq<ServerModel> {
    Seq::new(ps.len(), |i: int| merged_entry(ps, i, r)) + new_servers(ps, r)
}

/// The last running server with path `p` has that path; it exists exactly when
/// some running server has path `p`, and then `p` is among the running paths.
pub proof fn lemma_last_with_path(r: Seq<ServerModel>, p: Seq<char>)
    ensures
        last_with_path(r, p) is Some <==> path_listed(r, p),
        last_with_path(r, p) is Some <==> running_paths(r).contains(p),
        last_with_path(r, p) matches Some(s) ==> s.path == Some(p),
    decreases r.len(),
{
    if r.len() > 0 {
        let rest = r.drop_last();
        lemma_last_with_path(rest, p);
        if path_listed(rest, p) {
            let j = choose|j: int| 0 <= j < rest.len() && #[trigger] rest[j].path == Some(p);
            assert(r[j].path == Some(p));
        }
        if path_listed(r, p) && r.last().path != Some(p) {
            let j = choose|j: int| 0 <= j < r.len() && #[trigger] r[j].path == Some(p);
            assert(rest[j].path == Some(p));
        }
        if r.last().path == Some(p) {
            assert(r[r.len() - 1].path == Some(p));
        }
        let rp = running_paths(rest);
        match r.last().path {
            Some(q) => {
                if !rp.contains(q) {
                    if rp.push(q).contains(p) && p != q {
                        let k = choose|k: int| 0 <= k < rp.push(q).len() && rp.push(q)[k] == p;
                        assert(rp[k] == p);
                    }
                    if rp.contains(p) {
                        let k = choose|k: int| 0 <= k < rp.len() && rp[k] == p;
                        assert(rp.push(q)[k] == p);
                    }
                    if p == q {
                        assert(rp.push(q)[rp.len() as int] == p);
                    }
                }
            },
            None => {},
        }
    }
}

/// The running paths are distinct.
pub proof fn lemma_running_paths_distinct(r: Seq<ServerModel>)
    ensures
        running_paths(r).no_duplicates(),
    decreases r.len(),
{
    if r.len() > 0 {
        lemma_running_paths_distinct(r.drop_last());
        let rest = running_paths(r.drop_last());
        match r.last().path {
            Some(p) => {
                if !rest.contains(p) {
                    let s = rest.push(p);
                    assert forall|a: int, b: int| 0 <= a < s.len() && 0 <= b < s.len() && a != b
                        implies s[a] != s[b] by {
                        if a == rest.len() {
                            assert(s[b] == rest[b]);
                        } else if b == rest.len() {
                            assert(s[a] == rest[a]);
                        }
                    }
                }
            },
            None => {},
        }
    }
}

/// Adding one more running server changes the latest report of its own path only.
proof fn lemma_last_with_path_push(r: Seq<ServerModel>, s: ServerModel, q: Seq<char>)
    ensures
        r.push(s).drop_last() == r,
        s.path == Some(q) ==> last_with_path(r.push(s), q) == Some(s),
        s.path != Some(q) ==> last_with_path(r.push(s), q) == last_with_path(r, q),
{
    assert(r.push(s).drop_last() =~= r);
}

/// The index of the first entry of `table` whose path is `p`.
fn find_path(table: &Vec<ServerInfo>, p: &String) -> (res: Option<usize>)
    ensures
        res matches Some(t) ==> t < table.len() && opt_chars(table@[t as int].path) == Some(p@),
        res is None ==> forall|t: int|
            0 <= t < table.len() ==> opt_chars(#[trigger] table@[t].path) != Some(p@),
{
    let mut t: usize = 0;
    while t < table.len()
        invariant
            t <= table.len(),
            forall|u: int| 0 <= u < t ==> opt_chars(#[trigger] table@[u].path) != Some(p@),
        decreases table.len() - t,
    {
        if path_is(&table[t].path, p) {
            return Some(t);
        }
        t = t + 1;
    }
    None
}

/// The latest running server for each path, in the order the paths first appear.
fn index_running(running: &Vec<ServerInfo>) -> (table: Vec<ServerInfo>)
    ensures
        table.len() == running_paths(models(running@)).len(),
        forall|t: int|
            0 <= t < table.len() ==> {
                let p = running_paths(models(running@))[t];
                &&& (#[trigger] table@[t])@ == last_with_path(models(running@), p)->0
                &&& last_with_path(models(running@), p) is Some
                &&& opt_chars(table@[t].path) == Some(p)
            },
{
    let ghost r = models(running@);
    let mut table: Vec<ServerInfo> = Vec::new();
    let mut k: usize = 0;
    while k < running.len()
        invariant
            k <= running.len(),
            r == models(running@),
            table.len() == running_paths(r.take(k as int)).len(),
            forall|t: int|
                0 <= t < table.len() ==> {
                    let p = running_paths(r.take(k as int))[t];
                    &&& (#[trigger] table@[t])@ == last_with_path(r.take(k as int), p)->0
                    &&& last_with_path(r.take(k as int), p) is Some
                    &&& opt_chars(table@[t].path) == Some(p)
                },
        decreases running.len() - k,
    {
        let ghost rk = r.take(k as int);
        let ghost rk1 = r.take(k + 1);
        let ghost s = running@[k as int]@;
        assert(rk1 =~= rk.push(s));
        proof {
            lemma_last_with_path_push(rk, s, Seq::empty());
        }
        let ghost old_table = table@;
        match &running[k].path {
            Some(p) => {
                let found = find_path(&table, p);
                match found {
                    Some(t) => {
                        proof {
                            lemma_last_with_path(rk, p@);
                            assert(running_paths(rk)[t as int] == p@);
                            assert(running_paths(rk).contains(p@));
                        }
                        table.set(t, copy_server(&running[k]));
                        proof {
                            lemma_running_paths_distinct(rk);
                            assert(running_paths(rk1) == running_paths(rk));
                            assert forall|u: int| 0 <= u < table.len() implies {
                                let q = running_paths(rk1)[u];
                                &&& (#[trigger] table@[u])@ == last_with_path(rk1, q)->0
                                &&& last_with_path(rk1, q) is Some
                                &&& opt_chars(table@[u].path) == Some(q)
                            } by {
                                let q = running_paths(rk1)[u];
                                lemma_last_with_path_push(rk, s, q);
                                if u != t {
                                    assert(running_paths(rk)[u] != running_paths(rk)[t as int]);
                                }
                            }
                        }
                    },
                    None => {
                        proof {
                            lemma_last_with_path(rk, p@);
                            if running_paths(rk).contains(p@) {
                                let u = choose|u: int|
                                    0 <= u < running_paths(rk).len() && running_paths(rk)[u]
                                        == p@;
                                assert(opt_chars(table@[u].path) == Some(p@));
                            }
                        }
                        table.push(copy_server(&running[k]));
                        proof {
                            assert(running_paths(rk1) == running_paths(rk).push(p@));
                            assert forall|u: int| 0 <= u < table.len() implies {
                                let q = running_paths(rk1)[u];
                                &&& (#[trigger] table@[u])@ == last_with_path(rk1, q)->0
                                &&& last_with_path(rk1, q) is Some
                                &&& opt_chars(table@[u].path) == Some(q)
                            } by {
                                let q = running_paths(rk1)[u];
                                lemma_last_with_path_push(rk, s, q);
                                if u < old_table.len() {
                                    assert(table@[u] == old_table[u]);
                                    assert(q == running_paths(rk)[u]);
                                    assert(q != p@);
                                }
                            }
                        }
                    },
                }
            },
            None => {
                proof {
                    assert(running_paths(rk1) == running_paths(rk));
                    assert forall|u: int| 0 <= u < table.len() implies {
                        let q = running_paths(rk1)[u];
                        &&& (#[trigger] table@[u])@ == last_with_path(rk1, q)->0
                        &&& last_with_path(rk1, q) is Some
                        &&& opt_chars(table@[u].path) == Some(q)
                    } by {
                        let q = running_paths(rk1)[u];
                        lemma_last_with_path_push(rk, s, q);
                    }
                }
            },
        }
        k = k + 1;
    }
    assert(r.take(running.len() as int) =~= r);
    table
}

/// Merges the servers found running into the saved list.
///
/// Every saved entry keeps its place: the first saved entry with the path of a
/// running server takes that server's scanned fields and keeps its label; every
/// other saved entry, including one without a path, is marked inactive and loses
/// its process id, its other fields kept. Running servers whose path no saved
/// entry has are added at the end, one per path, the latest report winning.
/// Running servers without a path are left out.
pub fn merge_servers(persisted: Vec<ServerInfo>, running: Vec<ServerInfo>) -> (merged: Vec<
    ServerInfo,
>)
    ensures
        models(merged@) == merge_model(models(persisted@), models(running@)),
{
    let ghost ps = models(persisted@);
    let ghost r = models(running@);
    let ghost paths = running_paths(r);
    let table = index_running(&running);
    proof {
        lemma_running_paths_distinct(r);
    }
    let mut consumed: Vec<bool> = Vec::new();
    let mut t: usize = 0;
    while t < table.len()
        invariant
            t <= table.len(),
            consumed.len() == t,
            forall|u: int| 0 <= u < t ==> !(#[trigger] consumed@[u]),
        decreases table.len() - t,
    {
        consumed.push(false);
        t = t + 1;
    }
    let mut out: Vec<ServerInfo> = Vec::new();
    let mut i: usize = 0;
    while i < persisted.len()
        invariant
            i <= persisted.len(),
            ps == models(persisted@),
            r == models(running@),
            paths == running_paths(r),
            paths.no_duplicates(),
            table.len() == paths.len(),
            forall|u: int|
                0 <= u < table.len() ==> {
                    &&& (#[trigger] table@[u])@ == last_with_path(r, paths[u])->0
                    &&& last_with_path(r, paths[u]) is Some
                    &&& opt_chars(table@[u].path) == Some(paths[u])
                },
            consumed.len() == table.len(),
            forall|u: int|
                0 <= u < consumed.len() ==> #[trigger] consumed@[u] == claimed_before(
                    ps,
                    i as int,
                    paths[u],
                ),
            models(out@) =~= Seq::new(i as nat, |j: int| merged_entry(ps, j, r)),
        decreases persisted.len() - i,
    {
        let ghost old_consumed = consumed@;
        let ghost old_out = models(out@);
        let ghost cur = ps[i as int];
        match &persisted[i].path {
            None => {
                let mut entry = copy_server(&persisted[i]);
                entry.active = false;
                entry.pid = None;
                out.push(entry);
                proof {
                    assert forall|u: int| 0 <= u < consumed.len() implies #[trigger] consumed@[u]
                        == claimed_before(ps, i + 1, paths[u]) by {
                        if claimed_before(ps, i + 1, paths[u]) {
                            let j = choose|j: int|
                                0 <= j < i + 1 && #[trigger] ps[j].path == Some(paths[u]);
                            assert(j != i);
                        }
                    }
                }
            },
            Some(p) => {
                let found = find_path(&table, p);
                proof {
                    lemma_last_with_path(r, p@);
                    if found is None && paths.contains(p@) {
                        let u = choose|u: int| 0 <= u < paths.len() && paths[u] == p@;
                        assert(opt_chars(table@[u].path) == Some(p@));
                    }
                }
                let mut take_running = false;
                let mut slot: usize = 0;
                match found {
                    Some(t) => {
                        if !consumed[t] {
                            take_running = true;
                            slot = t;
                        }
                    },
                    None => {},
                }
                if take_running {
                    let fresh = copy_server(&table[slot]);
                    let entry = ServerInfo {
                        port: fresh.port,
                        title: fresh.title,
                        url: fresh.url,
                        pid: fresh.pid,
                        path: fresh.path,
                        command: fresh.command,
                        active: fresh.active,
                        custom_name: copy_opt_string(&persisted[i].custom_name),
                    };
                    out.push(entry);
                    consumed.set(slot, true);
                } else {
                    let mut entry = copy_server(&persisted[i]);
                    entry.active = false;
                    entry.pid = None;
                    out.push(entry);
                }
                proof {
                    assert forall|u: int| 0 <= u < consumed.len() implies #[trigger] consumed@[u]
                        == claimed_before(ps, i + 1, paths[u]) by {
                        if claimed_before(ps, i + 1, paths[u]) && !claimed_before(
                            ps,
                            i as int,
                            paths[u],
                        ) {
                            let j = choose|j: int|
                                0 <= j < i + 1 && #[trigger] ps[j].path == Some(paths[u]);
                            assert(j == i);
                        }
                        if paths[u] == p@ {
                            assert(ps[i as int].path == Some(paths[u]));
                        }
                        if claimed_before(ps, i as int, paths[u]) {
                            let j = choose|j: int|
                                0 <= j < i && #[trigger] ps[j].path == Some(paths[u]);
                            assert(ps[j].path == Some(paths[u]));
                        }
                    }
                }
            },
        }
        proof {
            assert(models(out@) =~= old_out.push(merged_entry(ps, i as int, r)));
        }
        i = i + 1;
    }
    let ghost head = models(out@);
    let mut t: usize = 0;
    while t < table.len()
        invariant
            t <= table.len(),
            ps == models(persisted@),
            r == models(running@),
            paths == running_paths(r),
            table.len() == paths.len(),
            forall|u: int|
                0 <= u < table.len() ==> {
                    &&& (#[trigger] table@[u])@ == last_with_path(r, paths[u])->0
                    &&& last_with_path(r, paths[u]) is Some
                    &&& opt_chars(table@[u].path) == Some(paths[u])
                },
            consumed.len() == table.len(),
            forall|u: int|
                0 <= u < consumed.len() ==> #[trigger] consumed@[u] == claimed_before(
                    ps,
                    ps.len() as int,
                    paths[u],
                ),
            models(out@) =~= head + paths.take(t as int).filter(unsaved(ps)).map_values(
                latest_in(r),
            ),
        decreases table.len() - t,
    {
        let ghost before = paths.take(t as int).filter(unsaved(ps));
        let ghost old_models = models(out@);
        proof {
            assert(paths.take(t + 1).drop_last() =~= paths.take(t as int));
            assert(paths.take(t + 1).last() == paths[t as int]);
            reveal_with_fuel(Seq::filter, 1);
            assert(claimed_before(ps, ps.len() as int, paths[t as int]) == path_listed(
                ps,
                paths[t as int],
            ));
        }
        if !consumed[t] {
            out.push(copy_server(&table[t]));
            proof {
                assert(models(out@) =~= old_models.push(table@[t as int]@));
                assert(latest_in(r)(paths[t as int]) == table@[t as int]@);
                assert(paths.take(t + 1).filter(unsaved(ps)) == before.push(paths[t as int]));
                assert(before.push(paths[t as int]).map_values(latest_in(r)) =~= before.map_values(
                    latest_in(r),
                ).push(last_with_path(r, paths[t as int])->0));
            }
        } else {
            proof {
                assert(paths.take(t + 1).filter(unsaved(ps)) == before);
            }
        }
        t = t + 1;
    }
    assert(paths.take(table.len() as int) =~= paths);
    out
}

// ---------------------------------------------------------------------------
// Labels
// ---------------------------------------------------------------------------

/// The label that a requested name gives: trimmed, and none when nothing is left.
pub open spec fn label_of(name: Option<Seq<char>>) -> Option<Seq<char>> {
    match name {
        Some(n) => if trim(n).len() == 0 {
            None
        } else {
            Some(trim(n))
        },
        None => None,
    }
}

/// The index of the first entry from index `k` on whose path is `p`.
pub open spec fn find_path_from(s: Seq<ServerModel>, p: Seq<char>, k: int) -> Option<int>
    decreases s.len() - k,
{
    if 0 <= k < s.len() {
        if s[k].path == Some(p) {
            Some(k)
        } else {
            find_path_from(s, p, k + 1)
        }
    } else {
        None
    }
}

/// The list after renaming the first entry with path `p`: its label becomes
/// `label_of(name)`, nothing else changes. None when no entry has path `p`.
pub open spec fn rename_model(s: Seq<ServerModel>, p: Seq<char>, name: Option<Seq<char>>) -> Option<
    Seq<ServerModel>,
> {
    match find_path_from(s, p, 0) {
        Some(i) => Some(s.update(i, ServerModel { custom_name: label_of(name), ..s[i] })),
        None => None,
    }
}

/// The message for a rename of a path that no entry has.
pub open spec fn not_found_message(p: Seq<char>) -> Seq<char> {
    "Server with path '"@ + p + "' not found"@
}

/// Sets the label of the first entry whose working directory is `path`.
///
/// The name is trimmed; an empty name clears the label. Fails, with a message
/// that names the path, when no entry has that path.
pub fn rename_server(servers: Vec<ServerInfo>, path: &str, custom_name: Option<String>) -> (res:
    Result<Vec<ServerInfo>, String>)
    ensures
        match res {
            Ok(v) => rename_model(models(servers@), path@, opt_chars(custom_name)) == Some(
                models(v@),
            ),
            Err(e) => rename_model(models(servers@), path@, opt_chars(custom_name)) is None
                && e@ == not_found_message(path@),
        },
{
    let ghost s0 = models(servers@);
    let p = path.to_owned();
    let mut list = servers;
    let mut k: usize = 0;
    while k < list.len()
        invariant
            k <= list.len(),
            s0 == models(list@),
            s0 == models(servers@),
            p@ == path@,
            find_path_from(s0, path@, 0) == find_path_from(s0, path@, k as int),
        decreases list.len() - k,
    {
        if path_is(&list[k].path, &p) {
            let label = match &custom_name {
                Some(n) => {
                    let t = trim_str(n.as_str());
                    if t.as_str().is_empty() {
                        None
                    } else {
                        Some(t)
                    }
                },
                None => None,
            };
            assert(s0[k as int].path == Some(path@));
            assert(find_path_from(s0, path@, k as int) == Some(k as int));
            assert(opt_chars(label) == label_of(opt_chars(custom_name)));
            let mut entry = copy_server(&list[k]);
            entry.custom_name = label;
            list.set(k, entry);
            assert(models(list@) =~= s0.update(
                k as int,
                ServerModel { custom_name: label_of(opt_chars(custom_name)), ..s0[k as int] },
            ));
            assert(rename_model(s0, path@, opt_chars(custom_name)) == Some(models(list@)));
            return Ok(list);
        }
        k = k + 1;
    }
    let mut msg = String::new();
    push_str(&mut msg, "Server with path '");
    push_str(&mut msg, path);
    push_str(&mut msg, "' not found");
    assert(msg@ =~= not_found_message(path@));
    Err(msg)
}

/// A server found answering on a port, completed with its process: the
/// process id is recorded; when there is one, its working directory and command
/// line are looked up with `cwd_of` and `cmdline_of` (and only then) and
/// recorded too. The server is marked active.
pub fn with_process<W: Fn(u32) -> Option<String>, M: Fn(i32) -> Option<String>>(
    info: ServerInfo,
    pid: Option<u32>,
    cwd_of: &W,
    cmdline_of: &M,
) -> (s: ServerInfo)
    requires
        forall|q: u32| cwd_of.requires((q,)),
        forall|q: i32| cmdline_of.requires((q,)),
    ensures
        pid is None ==> s@ == (ServerModel { pid: None, active: true, ..info@ }),
        pid is Some ==> exists|path: Option<String>, command: Option<String>|
            {
                &&& #[trigger] cwd_of.ensures((pid->0,), path)
                &&& #[trigger] cmdline_of.ensures(((pid->0) as i32,), command)
                &&& s@ == (ServerModel {
                    pid: pid,
                    path: opt_chars(path),
                    command: opt_chars(command),
                    active: true,
                    ..info@
                })
            },
{
    let mut info = info;
    info.pid = pid;
    match pid {
        Some(p) => {
            let path = cwd_of(p);
            let command = cmdline_of(p as i32);
            let ghost (path0, command0) = (path, command);
            info.path = path;
            info.command = command;
            assert(opt_chars(info.path) == opt_chars(path0) && opt_chars(info.command) == opt_chars(command0));
        },
        None => {},
    }
    info.active = true;
    info
}

} // verus!
