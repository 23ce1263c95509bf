//! Applications launched through the proxy: the saved list of bundles, and
//! how one is started with the proxy settings.

use vstd::prelude::*;

use crate::paths::{app_name, app_name_from_path, join, join_path};
use crate::status::{http_proxy_address, http_proxy_url, socks_proxy_address, socks_proxy_url};
use crate::text::{
    chars_of, decimal, pair_views, str_eq, string_of, string_views, trim, trim_chars,
};

verus! {

broadcast use vstd::seq_lib::group_to_multiset_ensures;

/// A saved application: its id (the bundle path), display name and path.
pub struct AppProxyEntry {
    pub id: String,
    pub name: String,
    pub path: String,
}

/// An entry as (id, name, path).
pub type EntryModel = (Seq<char>, Seq<char>, Seq<char>);

pub open spec fn entry_model(e: AppProxyEntry) -> EntryModel {
    (e.id@, e.name@, e.path@)
}

pub open spec fn entry_models(v: Seq<AppProxyEntry>) -> Seq<EntryModel> {
    v.map_values(|e: AppProxyEntry| entry_model(e))
}

fn copy_entry(e: &AppProxyEntry) -> (r: AppProxyEntry)
    ensures
        entry_model(r) == entry_model(*e),
{
    AppProxyEntry { id: e.id.clone(), name: e.name.clone(), path: e.path.clone() }
}

/// Lexicographic order of texts by character code, the order of `String`.
pub open spec fn lex_lt(a: Seq<char>, b: Seq<char>) -> bool
    decreases a.len(),
{
    if a.len() == 0 {
        b.len() > 0
    } else if b.len() == 0 {
        false
    } else if a[0] != b[0] {
        a[0] < b[0]
    } else {
        lex_lt(a.drop_first(), b.drop_first())
    }
}

pub open spec fn lex_le(a: Seq<char>, b: Seq<char>) -> bool {
    a == b || lex_lt(a, b)
}

pub proof fn lemma_lex_trans(a: Seq<char>, b: Seq<char>, c: Seq<char>)
    requires
        lex_lt(a, b),
        lex_lt(b, c),
    ensures
        lex_lt(a, c),
    decreases a.len(),
{
    if a.len() > 0 && b.len() > 0 && c.len() > 0 && a[0] == b[0] && b[0] == c[0] {
        lemma_lex_trans(a.drop_first(), b.drop_first(), c.drop_first());
    }
}

pub proof fn lemma_lex_total(a: Seq<char>, b: Seq<char>)
    ensures
        a == b || lex_lt(a, b) || lex_lt(b, a),
        !(lex_lt(a, b) && lex_lt(b, a)),
        !lex_lt(a, a),
    decreases a.len(),
{
    if a.len() > 0 && b.len() > 0 {
        lemma_lex_total(a.drop_first(), b.drop_first());
        if a[0] == b[0] && a.drop_first() == b.drop_first() {
            assert(a =~= seq![a[0]] + a.drop_first());
            assert(b =~= seq![b[0]] + b.drop_first());
        }
    } else if a.len() == 0 && b.len() == 0 {
        assert(a =~= b);
    }
    if a.len() > 0 {
        lemma_lex_total(a.drop_first(), a.drop_first());
    }
}

pub proof fn lemma_lex_le_trans(a: Seq<char>, b: Seq<char>, c: Seq<char>)
    requires
        lex_le(a, b),
        lex_le(b, c),
    ensures
        lex_le(a, c),
{
    if lex_lt(a, b) && lex_lt(b, c) {
        lemma_lex_trans(a, b, c);
    }
}

/// `a < b` in the order of `String`.
pub fn text_less(a: &str, b: &str) -> (r: bool)
    ensures
        r == lex_lt(a@, b@),
{
    let x = chars_of(a);
    let y = chars_of(b);
    let mut i: usize = 0;
    proof {
        assert(x@.skip(0) =~= x@);
        assert(y@.skip(0) =~= y@);
    }
    while i < x.len() && i < y.len() && x[i] == y[i]
        invariant
            i <= x@.len(),
            i <= y@.len(),
            x@.take(i as int) == y@.take(i as int),
            lex_lt(x@.skip(i as int), y@.skip(i as int)) == lex_lt(x@, y@),
        decreases x@.len() - i,
    {
        proof {
            assert(x@.skip(i as int).drop_first() =~= x@.skip(i + 1));
            assert(y@.skip(i as int).drop_first() =~= y@.skip(i + 1));
            assert(x@.take(i + 1) =~= x@.take(i as int).push(x@[i as int]));
            assert(y@.take(i + 1) =~= y@.take(i as int).push(y@[i as int]));
        }
        i = i + 1;
    }
    proof {
        if i < x@.len() && i < y@.len() {
            assert(x@.skip(i as int)[0] == x@[i as int]);
            assert(y@.skip(i as int)[0] == y@[i as int]);
        }
    }
    if i == x.len() {
        i < y.len()
    } else if i == y.len() {
        false
    } else {
        x[i] < y[i]
    }
}

/// The entries are in order of name.
pub open spec fn sorted_by_name(s: Seq<EntryModel>) -> bool {
    forall|a: int, b: int| 0 <= a < b < s.len() ==> lex_le((#[trigger] s[a]).1, (#[trigger] s[b]).1)
}

/// The entries with this name, in order.
pub open spec fn with_name(s: Seq<EntryModel>, name: Seq<char>) -> Seq<EntryModel>
    decreases s.len(),
{
    if s.len() == 0 {
        seq![]
    } else if s.last().1 == name {
        with_name(s.drop_last(), name).push(s.last())
    } else {
        with_name(s.drop_last(), name)
    }
}

pub proof fn lemma_with_name_concat(a: Seq<EntryModel>, b: Seq<EntryModel>, name: Seq<char>)
    ensures
        with_name(a + b, name) == with_name(a, name) + with_name(b, name),
    decreases b.len(),
{
    if b.len() == 0 {
        assert(a + b =~= a);
        assert(with_name(a, name) + with_name(b, name) =~= with_name(a, name));
    } else {
        lemma_with_name_concat(a, b.drop_last(), name);
        assert((a + b).drop_last() =~= a + b.drop_last());
        assert((a + b).last() == b.last());
        if b.last().1 == name {
            assert(with_name(a, name) + with_name(b, name) =~= (with_name(a, name) + with_name(
                b.drop_last(),
                name,
            )).push(b.last()));
        }
    }
}

pub proof fn lemma_with_name_none(s: Seq<EntryModel>, name: Seq<char>)
    requires
        forall|i: int| 0 <= i < s.len() ==> (#[trigger] s[i]).1 != name,
    ensures
        with_name(s, name) == Seq::<EntryModel>::empty(),
    decreases s.len(),
{
    if s.len() > 0 {
        assert(s.last() == s[s.len() - 1]);
        lemma_with_name_none(s.drop_last(), name);
    }
}

/// The entries ordered by name; entries with equal names keep their order,
/// as in a stable sort.
pub fn sort_by_name(entries: &Vec<AppProxyEntry>) -> (r: Vec<AppProxyEntry>)
    ensures
        sorted_by_name(entry_models(r@)),
        entry_models(r@).to_multiset() == entry_models(entries@).to_multiset(),
        forall|name: Seq<char>|
            #[trigger] with_name(entry_models(r@), name) == with_name(entry_models(entries@), name),
{
    let ghost am = entry_models(entries@);
    let mut sorted: Vec<AppProxyEntry> = Vec::new();
    let mut j: usize = 0;
    proof {
        assert(am.take(0) =~= Seq::<EntryModel>::empty());
        assert(entry_models(sorted@) =~= Seq::<EntryModel>::empty());
    }
    while j < entries.len()
        invariant
            j <= entries@.len(),
            am == entry_models(entries@),
            sorted_by_name(entry_models(sorted@)),
            entry_models(sorted@).to_multiset() == am.take(j as int).to_multiset(),
            forall|name: Seq<char>|
                #[trigger] with_name(entry_models(sorted@), name) == with_name(
                    am.take(j as int),
                    name,
                ),
        decreases entries@.len() - j,
    {
        let ghost sm = entry_models(sorted@);
        let x = copy_entry(&entries[j]);
        let ghost xm = entry_model(x);
        let mut p: usize = 0;
        while p < sorted.len() && !text_less(x.name.as_str(), sorted[p].name.as_str())
            invariant
                p <= sorted@.len(),
                sm == entry_models(sorted@),
                xm == entry_model(x),
                forall|a: int| 0 <= a < p ==> lex_le((#[trigger] sm[a]).1, xm.1),
            decreases sorted@.len() - p,
        {
            proof {
                assert(sm[p as int] == entry_model(sorted@[p as int]));
                assert(!lex_lt(xm.1, sm[p as int].1));
                lemma_lex_total(sm[p as int].1, xm.1);
                assert(lex_le(sm[p as int].1, xm.1));
            }
            p = p + 1;
        }
        sorted.insert(p, x);
        proof {
            let sm2 = entry_models(sorted@);
            assert(sm2 =~= sm.insert(p as int, xm));
            sm.insert_ensures(p as int, xm);
            assert forall|a: int, b: int| 0 <= a < b < sm2.len() implies lex_le(
                (#[trigger] sm2[a]).1,
                (#[trigger] sm2[b]).1,
            ) by {
                if b < p {
                    assert(sm2[a] == sm[a] && sm2[b] == sm[b]);
                } else if b == p {
                    assert(sm2[a] == sm[a]);
                } else if a < p {
                    assert(sm2[a] == sm[a]);
                    assert(sm2[b] == sm[b - 1]);
                    lemma_lex_le_trans(sm[a].1, xm.1, sm[p as int].1);
                    lemma_lex_le_trans(sm[a].1, sm[p as int].1, sm[b - 1].1);
                } else if a == p {
                    assert(sm2[b] == sm[b - 1]);
                    lemma_lex_le_trans(xm.1, sm[p as int].1, sm[b - 1].1);
                } else {
                    assert(sm2[a] == sm[a - 1]);
                    assert(sm2[b] == sm[b - 1]);
                }
            }
            assert(am.take(j + 1) =~= am.take(j as int).push(am[j as int]));
            assert(am[j as int] == xm);
            assert(am.take(j + 1).drop_last() =~= am.take(j as int));
            let front = sm.take(p as int);
            let back = sm.skip(p as int);
            assert(sm =~= front + back);
            assert(sm2 =~= front.push(xm) + back);
            if p < sm.len() {
                assert(lex_lt(xm.1, sm[p as int].1));
            }
            assert forall|i: int| 0 <= i < back.len() implies (#[trigger] back[i]).1 != xm.1 by {
                assert(back[i] == sm[p + i]);
                lemma_lex_total(xm.1, xm.1);
                if i > 0 {
                    assert(lex_le(sm[p as int].1, sm[p + i].1));
                    if sm[p + i].1 == xm.1 {
                        lemma_lex_total(xm.1, sm[p as int].1);
                    }
                }
            }
            lemma_with_name_none(back, xm.1);
            assert forall|name: Seq<char>| #[trigger] with_name(sm2, name) == with_name(
                am.take(j + 1),
                name,
            ) by {
                lemma_with_name_concat(front.push(xm), back, name);
                lemma_with_name_concat(front, back, name);
                assert(front.push(xm).drop_last() =~= front);
                if name == xm.1 {
                    assert(with_name(back, name) == Seq::<EntryModel>::empty());
                    assert(with_name(front, name) + Seq::<EntryModel>::empty() =~= with_name(front, name));
                    assert(with_name(front.push(xm), name) + Seq::<EntryModel>::empty() =~= with_name(
                        front.push(xm),
                        name,
                    ));
                }
            }
        }
        j = j + 1;
    }
    proof {
        assert(am.take(j as int) =~= am);
    }
    sorted
}


/// Some entry has this path.
pub open spec fn has_path(es: Seq<EntryModel>, path: Seq<char>) -> bool {
    exists|i: int| 0 <= i < es.len() && #[trigger] es[i].2 == path
}

/// The entry made for a chosen bundle path.
pub open spec fn new_entry(path: Seq<char>) -> EntryModel {
    (path, app_name(path), path)
}

/// Whether choosing an application adds it: the chosen path (the picker's
/// output, trimmed) is non-empty and not yet in the list.
pub open spec fn adds_entry(es: Seq<EntryModel>, output: Seq<char>) -> bool {
    trim(output).len() > 0 && !has_path(es, trim(output))
}

/// Index of the first entry with this path.
fn position_of_path(entries: &Vec<AppProxyEntry>, path: &str) -> (r: Option<usize>)
    ensures
        match r {
            Some(k) => k < entries@.len() && entry_models(entries@)[k as int].2 == path@,
            None => !has_path(entry_models(entries@), path@),
        },
{
    let mut k: usize = 0;
    while k < entries.len()
        invariant
            k <= entries@.len(),
            forall|j: int| 0 <= j < k ==> entry_models(entries@)[j].2 != path@,
        decreases entries@.len() - k,
    {
        if str_eq(entries[k].path.as_str(), path) {
            return Some(k);
        }
        k = k + 1;
    }
    None
}

/// Adds the application chosen in the picker (whose output is given) to
/// the list, which is then ordered by name. The flag says whether the list
/// changed; an empty choice or a bundle already listed changes nothing.
pub fn add_app_entry(entries: Vec<AppProxyEntry>, picker_output: &str) -> (r: (
    Vec<AppProxyEntry>,
    bool,
))
    ensures
        r.1 == adds_entry(entry_models(entries@), picker_output@),
        !r.1 ==> r.0@ == entries@,
        r.1 ==> sorted_by_name(entry_models(r.0@)) && entry_models(r.0@).to_multiset()
            == entry_models(entries@).to_multiset().insert(new_entry(trim(picker_output@))),
        r.1 ==> forall|name: Seq<char>|
            #[trigger] with_name(entry_models(r.0@), name) == with_name(
                entry_models(entries@).push(new_entry(trim(picker_output@))),
                name,
            ),
{
    let out = chars_of(picker_output);
    let sel_chars = trim_chars(&out);
    let selected = string_of(&sel_chars);
    if sel_chars.len() == 0 {
        return (entries, false);
    }
    if position_of_path(&entries, selected.as_str()).is_some() {
        return (entries, false);
    }
    let name = app_name_from_path(selected.as_str());
    let mut grown = entries;
    let ghost before = entry_models(grown@);
    grown.push(AppProxyEntry { id: selected.clone(), name, path: selected });
    proof {
        assert(entry_models(grown@) =~= before.push(new_entry(trim(picker_output@))));
    }
    let sorted = sort_by_name(&grown);
    (sorted, true)
}

/// The entries whose id differs from `id`, in order.
pub open spec fn without_id(es: Seq<EntryModel>, id: Seq<char>) -> Seq<EntryModel>
    decreases es.len(),
{
    if es.len() == 0 {
        seq![]
    } else if es.last().0 == id {
        without_id(es.drop_last(), id)
    } else {
        without_id(es.drop_last(), id).push(es.last())
    }
}

/// Removes every entry with the given id.
pub fn remove_app_entry(entries: &Vec<AppProxyEntry>, id: &str) -> (r: Vec<AppProxyEntry>)
    ensures
        entry_models(r@) == without_id(entry_models(entries@), id@),
{
    let ghost es = entry_models(entries@);
    let mut out: Vec<AppProxyEntry> = Vec::new();
    let mut i: usize = 0;
    while i < entries.len()
        invariant
            i <= entries@.len(),
            es == entry_models(entries@),
            entry_models(out@) == without_id(es.take(i as int), id@),
        decreases entries@.len() - i,
    {
        proof {
            assert(es.take(i + 1).drop_last() =~= es.take(i as int));
            assert(es.take(i + 1).last() == es[i as int]);
        }
        if !str_eq(entries[i].id.as_str(), id) {
            let ghost before = entry_models(out@);
            out.push(copy_entry(&entries[i]));
            assert(entry_models(out@) =~= before.push(es[i as int]));
        }
        i = i + 1;
    }
    assert(es.take(i as int) =~= es);
    out
}

/// The first entry with this id, if any.
pub open spec fn entry_with_id(es: Seq<EntryModel>, id: Seq<char>) -> Option<EntryModel>
    decreases es.len(),
{
    if es.len() == 0 {
        None
    } else if es[0].0 == id {
        Some(es[0])
    } else {
        entry_with_id(es.drop_first(), id)
    }
}

/// The message for an unknown application.
pub open spec fn unknown_app_message() -> Seq<char> {
    "应用不存在"@
}

/// The entry with the given id, or the error shown when there is none.
pub fn find_app_entry(entries: &Vec<AppProxyEntry>, id: &str) -> (r: Result<AppProxyEntry, String>)
    ensures
        match r {
            Ok(e) => entry_with_id(entry_models(entries@), id@) == Some(entry_model(e)),
            Err(m) => entry_with_id(entry_models(entries@), id@) is None && m@
                == unknown_app_message(),
        },
{
    let ghost es = entry_models(entries@);
    let mut i: usize = 0;
    proof {
        assert(es.skip(0) =~= es);
    }
    while i < entries.len()
        invariant
            i <= entries@.len(),
            es == entry_models(entries@),
            entry_with_id(es.skip(i as int), id@) == entry_with_id(es, id@),
        decreases entries@.len() - i,
    {
        proof {
            assert(es.skip(i as int)[0] == es[i as int]);
            assert(es.skip(i as int).drop_first() =~= es.skip(i + 1));
        }
        if str_eq(entries[i].id.as_str(), id) {
            return Ok(copy_entry(&entries[i]));
        }
        i = i + 1;
    }
    proof {
        assert(es.skip(i as int) =~= Seq::<EntryModel>::empty());
    }
    Err(String::from_str("应用不存在"))
}

pub proof fn lemma_without_id_count(es: Seq<EntryModel>, id: Seq<char>, m: EntryModel)
    ensures
        without_id(es, id).to_multiset().count(m) == if m.0 == id {
            0
        } else {
            es.to_multiset().count(m)
        },
    decreases es.len(),
{
    broadcast use vstd::multiset::group_multiset_axioms;

    if es.len() == 0 {
        assert(without_id(es, id) =~= Seq::<EntryModel>::empty());
    } else {
        lemma_without_id_count(es.drop_last(), id, m);
        assert(es =~= es.drop_last().push(es.last()));
    }
}

/// Adding an application and then removing it by its id leaves the list
/// with the same entries as before, when no entry had its path or id.
pub proof fn law_add_then_remove(es: Seq<EntryModel>, added: Seq<EntryModel>, output: Seq<char>)
    requires
        adds_entry(es, output),
        forall|i: int| 0 <= i < es.len() ==> (#[trigger] es[i]).0 != trim(output),
        added.to_multiset() == es.to_multiset().insert(new_entry(trim(output))),
    ensures
        without_id(added, trim(output)).to_multiset() == es.to_multiset(),
{
    broadcast use vstd::multiset::group_multiset_axioms;

    let sel = trim(output);
    assert forall|m: EntryModel| #[trigger]
        without_id(added, sel).to_multiset().count(m) == es.to_multiset().count(m) by {
        lemma_without_id_count(added, sel, m);
        if m.0 == sel {
            if es.to_multiset().count(m) > 0 {
                assert(es.contains(m));
                let i = choose|i: int| 0 <= i < es.len() && es[i] == m;
                assert(es[i].0 != sel);
            }
        }
    }
    assert(without_id(added, sel).to_multiset() =~= es.to_multiset());
}

/// Choosing the same application twice adds it once: after it was added,
/// the list has its path.
pub proof fn law_added_entry_listed(es: Seq<EntryModel>, added: Seq<EntryModel>, output: Seq<char>)
    requires
        adds_entry(es, output),
        added.to_multiset() == es.to_multiset().insert(new_entry(trim(output))),
    ensures
        !adds_entry(added, output),
{
    broadcast use vstd::multiset::group_multiset_axioms;

    let e = new_entry(trim(output));
    assert(added.to_multiset().count(e) > 0);
    assert(added.contains(e));
    let i = choose|i: int| 0 <= i < added.len() && added[i] == e;
    assert(added[i].2 == trim(output));
}


/// Hosts that bypass the proxy.
pub open spec fn no_proxy_list() -> Seq<char> {
    "localhost,127.0.0.1,::1"@
}

/// The environment of an application launched through the proxy: the
/// lower- and upper-case `http_proxy`, `https_proxy`, `all_proxy` and
/// `no_proxy` variables.
pub open spec fn launch_env_spec(http_port: u16, socks_port: u16) -> Seq<(Seq<char>, Seq<char>)> {
    let p = http_proxy_url(http_port);
    let s = socks_proxy_url(socks_port);
    seq![
        ("http_proxy"@, p),
        ("https_proxy"@, p),
        ("all_proxy"@, s),
        ("HTTP_PROXY"@, p),
        ("HTTPS_PROXY"@, p),
        ("ALL_PROXY"@, s),
        ("no_proxy"@, no_proxy_list()),
        ("NO_PROXY"@, no_proxy_list()),
    ]
}

/// The environment variables an application is launched with.
pub fn launch_env(http_port: u16, socks_port: u16) -> (r: Vec<(String, String)>)
    ensures
        pair_views(r@) == launch_env_spec(http_port, socks_port),
{
    let p = http_proxy_address(http_port);
    let s = socks_proxy_address(socks_port);
    let mut v: Vec<(String, String)> = Vec::new();
    v.push((String::from_str("http_proxy"), p.clone()));
    v.push((String::from_str("https_proxy"), p.clone()));
    v.push((String::from_str("all_proxy"), s.clone()));
    v.push((String::from_str("HTTP_PROXY"), p.clone()));
    v.push((String::from_str("HTTPS_PROXY"), p.clone()));
    v.push((String::from_str("ALL_PROXY"), s));
    v.push((String::from_str("no_proxy"), String::from_str("localhost,127.0.0.1,::1")));
    v.push((String::from_str("NO_PROXY"), String::from_str("localhost,127.0.0.1,::1")));
    assert(pair_views(v@) =~= launch_env_spec(http_port, socks_port));
    v
}

/// The arguments that make Chromium-style applications use the proxy.
pub open spec fn launch_args_spec(http_port: u16) -> Seq<Seq<char>> {
    seq!["--proxy-server="@ + http_proxy_url(http_port), "--proxy-bypass-list=<-loopback>"@]
}

/// The command-line arguments an application is launched with.
pub fn launch_args(http_port: u16) -> (r: Vec<String>)
    ensures
        string_views(r@) == launch_args_spec(http_port),
{
    let mut first = String::from_str("--proxy-server=");
    let p = http_proxy_address(http_port);
    first.append(p.as_str());
    let mut v: Vec<String> = Vec::new();
    v.push(first);
    v.push(String::from_str("--proxy-bypass-list=<-loopback>"));
    assert(string_views(v@) =~= launch_args_spec(http_port));
    v
}

/// The bundle's `Info.plist`.
pub open spec fn info_plist_of(path: Seq<char>) -> Seq<char> {
    join_path(path, "Contents/Info.plist"@)
}

/// The `plutil` arguments that print the bundle's executable name.
pub open spec fn plutil_args_spec(path: Seq<char>) -> Seq<Seq<char>> {
    seq!["-extract"@, "CFBundleExecutable"@, "raw"@, "-o"@, "-"@, info_plist_of(path)]
}

/// The `plutil` invocation that reads the bundle's executable name.
pub fn plutil_args(path: &str) -> (r: Vec<String>)
    ensures
        string_views(r@) == plutil_args_spec(path@),
{
    let mut v: Vec<String> = Vec::new();
    v.push(String::from_str("-extract"));
    v.push(String::from_str("CFBundleExecutable"));
    v.push(String::from_str("raw"));
    v.push(String::from_str("-o"));
    v.push(String::from_str("-"));
    v.push(join(path, "Contents/Info.plist"));
    assert(string_views(v@) =~= plutil_args_spec(path@));
    v
}

/// The executable's name: what `plutil` printed, trimmed, or the bundle's
/// display name when that failed or was empty.
pub open spec fn executable_name(path: Seq<char>, plutil_output: Result<String, String>) -> Seq<char> {
    match plutil_output {
        Ok(v) => if trim(v@).len() > 0 {
            trim(v@)
        } else {
            app_name(path)
        },
        Err(_) => app_name(path),
    }
}

/// Where the bundle's executable should be.
pub open spec fn executable_path(path: Seq<char>, plutil_output: Result<String, String>) -> Seq<char> {
    join_path(join_path(path, "Contents/MacOS"@), executable_name(path, plutil_output))
}

/// The path of the bundle's executable, from `plutil`'s answer.
pub fn app_executable_candidate(path: &str, plutil_output: &Result<String, String>) -> (r: String)
    ensures
        r@ == executable_path(path@, *plutil_output),
{
    let name = match plutil_output {
        Ok(v) => {
            let chars = chars_of(v.as_str());
            let t = trim_chars(&chars);
            if t.len() > 0 {
                string_of(&t)
            } else {
                app_name_from_path(path)
            }
        },
        Err(_) => app_name_from_path(path),
    };
    let dir = join(path, "Contents/MacOS");
    join(dir.as_str(), name.as_str())
}

/// The message for a bundle without its executable.
pub open spec fn missing_executable_message() -> Seq<char> {
    "没有找到应用可执行文件"@
}

/// The bundle's executable, when it exists there.
pub fn app_executable(path: &str, plutil_output: &Result<String, String>, exists: bool) -> (r: Result<
    String,
    String,
>)
    ensures
        match r {
            Ok(p) => exists && p@ == executable_path(path@, *plutil_output),
            Err(m) => !exists && m@ == missing_executable_message(),
        },
{
    if exists {
        Ok(app_executable_candidate(path, plutil_output))
    } else {
        Err(String::from_str("没有找到应用可执行文件"))
    }
}

/// An application launched through the proxy gets one HTTP proxy address,
/// `http://127.0.0.1:` and the HTTP port, under `http_proxy`, `https_proxy`,
/// `HTTP_PROXY` and `HTTPS_PROXY` and in its `--proxy-server` argument, and
/// the SOCKS address, `socks5h://127.0.0.1:` and the SOCKS port, under
/// `all_proxy` and `ALL_PROXY`.
pub proof fn law_launch_proxy_addresses(http_port: u16, socks_port: u16)
    ensures
        ({
            let env = launch_env_spec(http_port, socks_port);
            let web = "http://127.0.0.1:"@ + decimal(http_port as nat);
            let socks = "socks5h://127.0.0.1:"@ + decimal(socks_port as nat);
            &&& env.len() == 8
            &&& env[0] == ("http_proxy"@, web)
            &&& env[1] == ("https_proxy"@, web)
            &&& env[3] == ("HTTP_PROXY"@, web)
            &&& env[4] == ("HTTPS_PROXY"@, web)
            &&& env[2] == ("all_proxy"@, socks)
            &&& env[5] == ("ALL_PROXY"@, socks)
            &&& launch_args_spec(http_port)[0] == "--proxy-server="@ + web
        }),
{
}

} // verus!
