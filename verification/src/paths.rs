//! File-system paths of the application's data, of shell start-up files and
//! of application bundles, as Unix path text.

use vstd::prelude::*;

use crate::text::{chars_eq, chars_of, pair_views, string_of, sub_chars};

verus! {

/// `PathBuf::join` on Unix: an absolute `rel` replaces `base`; otherwise
/// `rel` is appended, with a `'/'` between them unless `base` is empty or
/// already ends with one.
pub open spec fn join_path(base: Seq<char>, rel: Seq<char>) -> Seq<char> {
    if rel.len() > 0 && rel[0] == '/' {
        rel
    } else if base.len() == 0 || base.last() == '/' {
        base + rel
    } else {
        base + seq!['/'] + rel
    }
}

/// Joins a path and a further component.
pub fn join(base: &str, rel: &str) -> (r: String)
    ensures
        r@ == join_path(base@, rel@),
{
    let b = chars_of(base);
    let mut rc = chars_of(rel);
    if rc.len() > 0 && rc[0] == '/' {
        return string_of(&rc);
    }
    let mut out = b;
    if out.len() > 0 && out[out.len() - 1] != '/' {
        out.push('/');
    }
    out.append(&mut rc);
    proof {
        assert(out@ =~= join_path(base@, rel@));
    }
    string_of(&out)
}

/// `dirs::home_dir`: the user's home directory as text. A home directory
/// whose name is not valid Unicode is reported as absent. Nothing is stated
/// of the result: it depends on the environment.
#[verifier::external_body]
fn home_dir() -> (r: Option<String>) {
    dirs::home_dir().and_then(|p| p.into_os_string().into_string().ok())
}

/// The error given when the home directory is unknown.
pub open spec fn no_home_message() -> Seq<char> {
    "home directory not found"@
}

/// The application's data directory under a home directory.
pub open spec fn app_dir_in(home: Seq<char>) -> Seq<char> {
    join_path(home, "Library/Application Support/AstrillSplitProxy"@)
}

/// A file of the application's data directory under a home directory.
pub open spec fn app_file_in(home: Seq<char>, name: Seq<char>) -> Seq<char> {
    join_path(app_dir_in(home), name)
}

/// The home directory, or the error text the application reports.
fn home_or_error() -> (r: Result<String, String>)
    ensures
        r matches Err(e) ==> e@ == no_home_message(),
{
    match home_dir() {
        Some(h) => Ok(h),
        None => Err(String::from_str("home directory not found")),
    }
}

/// The application's data directory.
pub fn app_dir() -> (r: Result<String, String>)
    ensures
        r matches Ok(p) ==> exists|home: Seq<char>| p@ == app_dir_in(home),
        r matches Err(e) ==> e@ == no_home_message(),
{
    let home = home_or_error()?;
    let p = join(home.as_str(), "Library/Application Support/AstrillSplitProxy");
    assert(p@ == app_dir_in(home@));
    Ok(p)
}

/// A file of the application's data directory.
fn app_file(name: &str) -> (r: Result<String, String>)
    ensures
        r matches Ok(p) ==> exists|home: Seq<char>| p@ == app_file_in(home, name@),
        r matches Err(e) ==> e@ == no_home_message(),
{
    let dir = app_dir()?;
    let ghost home = choose|home: Seq<char>| dir@ == app_dir_in(home);
    let p = join(dir.as_str(), name);
    assert(p@ == app_file_in(home, name@));
    Ok(p)
}

/// The settings file.
pub fn config_path() -> (r: Result<String, String>)
    ensures
        r matches Ok(p) ==> exists|home: Seq<char>| p@ == app_file_in(home, "config.json"@),
        r matches Err(e) ==> e@ == no_home_message(),
{
    app_file("config.json")
}

/// The traffic log written by the proxy worker.
pub fn traffic_log_path() -> (r: Result<String, String>)
    ensures
        r matches Ok(p) ==> exists|home: Seq<char>| p@ == app_file_in(home, "traffic.jsonl"@),
        r matches Err(e) ==> e@ == no_home_message(),
{
    app_file("traffic.jsonl")
}

/// The list of applications launched through the proxy.
pub fn app_proxy_list_path() -> (r: Result<String, String>)
    ensures
        r matches Ok(p) ==> exists|home: Seq<char>| p@ == app_file_in(
            home,
            "app_proxy_apps.json"@,
        ),
        r matches Err(e) ==> e@ == no_home_message(),
{
    app_file("app_proxy_apps.json")
}

/// The LaunchAgent file under a home directory.
pub open spec fn launch_agent_in(home: Seq<char>) -> Seq<char> {
    join_path(home, "Library/LaunchAgents/local.astrill-split-proxy.plist"@)
}

/// The LaunchAgent file that starts the application at login.
pub fn launch_agent_path() -> (r: Result<String, String>)
    ensures
        r matches Ok(p) ==> exists|home: Seq<char>| p@ == launch_agent_in(home),
        r matches Err(e) ==> e@ == no_home_message(),
{
    let home = home_or_error()?;
    let p = join(home.as_str(), "Library/LaunchAgents/local.astrill-split-proxy.plist");
    assert(p@ == launch_agent_in(home@));
    Ok(p)
}

/// The shell start-up files the proxy block goes into, each with its shell.
pub open spec fn shell_files_in(home: Seq<char>) -> Seq<(Seq<char>, Seq<char>)> {
    seq![
        ("zsh"@, join_path(home, ".zprofile"@)),
        ("zsh"@, join_path(home, ".zshrc"@)),
        ("bash"@, join_path(home, ".bash_profile"@)),
        ("bash"@, join_path(home, ".bashrc"@)),
        ("fish"@, join_path(home, ".config/fish/config.fish"@)),
    ]
}

/// The shell start-up files under a home directory.
pub fn shell_paths_in(home: &str) -> (r: Vec<(String, String)>)
    ensures
        pair_views(r@) == shell_files_in(home@),
{
    let mut v: Vec<(String, String)> = Vec::new();
    v.push((String::from_str("zsh"), join(home, ".zprofile")));
    v.push((String::from_str("zsh"), join(home, ".zshrc")));
    v.push((String::from_str("bash"), join(home, ".bash_profile")));
    v.push((String::from_str("bash"), join(home, ".bashrc")));
    v.push((String::from_str("fish"), join(home, ".config/fish/config.fish")));
    assert(pair_views(v@) =~= shell_files_in(home@));
    v
}

/// The shell start-up files of the current user.
pub fn shell_paths() -> (r: Result<Vec<(String, String)>, String>)
    ensures
        r matches Ok(v) ==> exists|home: Seq<char>| pair_views(v@) == shell_files_in(home),
        r matches Err(e) ==> e@ == no_home_message(),
{
    let home = home_or_error()?;
    let v = shell_paths_in(home.as_str());
    assert(pair_views(v@) == shell_files_in(home@));
    Ok(v)
}


/// Length of the last run of characters that holds no `'/'`.
pub open spec fn seg_len(p: Seq<char>) -> nat
    decreases p.len(),
{
    if p.len() == 0 || p.last() == '/' {
        0
    } else {
        1 + seg_len(p.drop_last())
    }
}

pub proof fn lemma_seg_len_bound(p: Seq<char>)
    ensures
        seg_len(p) <= p.len(),
    decreases p.len(),
{
    if p.len() > 0 && p.last() != '/' {
        lemma_seg_len_bound(p.drop_last());
    }
}

pub proof fn lemma_seg_len_is(p: Seq<char>, k: int)
    requires
        0 <= k <= p.len(),
        forall|i: int| p.len() - k <= i < p.len() ==> #[trigger] p[i] != '/',
        k == p.len() || p[p.len() - k - 1] == '/',
    ensures
        seg_len(p) == k,
    decreases k,
{
    if k > 0 {
        let q = p.drop_last();
        assert forall|i: int| q.len() - (k - 1) <= i < q.len() implies #[trigger] q[i] != '/' by {
            assert(q[i] == p[i]);
        }
        if k < p.len() {
            assert(q[q.len() - (k - 1) - 1] == p[p.len() - k - 1]);
        }
        assert(p[p.len() - 1] != '/');
        lemma_seg_len_is(q, k - 1);
    }
}

/// `Path::file_name` on Unix: the last component once trailing `'/'` and
/// `"."` components are dropped; `None` when that component is `".."`, or
/// when nothing but a root, `"."` or nothing remains.
pub open spec fn file_name(p: Seq<char>) -> Option<Seq<char>>
    decreases p.len(),
{
    if p.len() == 0 {
        None
    } else if p.last() == '/' {
        file_name(p.drop_last())
    } else {
        proof {
            lemma_seg_len_bound(p);
        }
        let k = p.len() - seg_len(p);
        let seg = p.skip(k);
        if seg == ".."@ {
            None
        } else if seg == "."@ {
            if k <= 0 {
                None
            } else {
                file_name(p.take(k))
            }
        } else {
            Some(seg)
        }
    }
}

/// The final component of a path, as `Path::file_name` gives it.
pub fn path_file_name(path: &str) -> (r: Option<String>)
    ensures
        match r {
            Some(n) => file_name(path@) == Some(n@),
            None => file_name(path@) is None,
        },
{
    let p = chars_of(path);
    let dot = chars_of(".");
    let dotdot = chars_of("..");
    let mut end = p.len();
    proof {
        assert(p@.take(end as int) =~= p@);
    }
    loop
        invariant
            end <= p@.len(),
            file_name(p@.take(end as int)) == file_name(path@),
            dot@ == "."@,
            dotdot@ == ".."@,
            p@ == path@,
        decreases end,
    {
        let ghost end0 = end;
        while end > 0 && p[end - 1] == '/'
            invariant
                end <= end0,
                end <= p@.len(),
                file_name(p@.take(end as int)) == file_name(path@),
            decreases end,
        {
            proof {
                assert(p@.take(end as int).drop_last() =~= p@.take(end - 1));
            }
            end = end - 1;
        }
        if end == 0 {
            return None;
        }
        let ghost q = p@.take(end as int);
        let mut k = end;
        while k > 0 && p[k - 1] != '/'
            invariant
                k <= end <= p@.len(),
                end <= end0,
                end > 0,
                p@[end - 1] != '/',
                forall|i: int| k <= i < end ==> #[trigger] p@[i] != '/',
            decreases k,
        {
            k = k - 1;
        }
        assert(k < end);
        proof {
            assert forall|i: int| q.len() - (end - k) <= i < q.len() implies #[trigger] q[i] != '/' by {
                assert(q[i] == p@[i]);
            }
            if k > 0 {
                assert(q[q.len() - (end - k) - 1] == p@[k - 1]);
            }
            lemma_seg_len_is(q, end - k);
            assert(q.skip(k as int) =~= p@.subrange(k as int, end as int));
            assert(q.take(k as int) =~= p@.take(k as int));
        }
        let seg = sub_chars(&p, k, end);
        if chars_eq(&seg, &dotdot) {
            return None;
        }
        if chars_eq(&seg, &dot) {
            if k == 0 {
                return None;
            }
            end = k;
        } else {
            return Some(string_of(&seg));
        }
    }
}

/// A name without any number of trailing `".app"` suffixes.
pub open spec fn strip_app_suffix(n: Seq<char>) -> Seq<char>
    decreases n.len(),
{
    if n.len() >= 4 && n.skip(n.len() - 4) == ".app"@ {
        strip_app_suffix(n.take(n.len() - 4))
    } else {
        n
    }
}

/// The display name of an application bundle: its file name without the
/// `.app` suffix, or the whole path when that leaves nothing.
pub open spec fn app_name(path: Seq<char>) -> Seq<char> {
    match file_name(path) {
        Some(n) => if strip_app_suffix(n).len() > 0 {
            strip_app_suffix(n)
        } else {
            path
        },
        None => path,
    }
}

/// `str::trim_end_matches(".app")`.
fn strip_app_suffix_chars(n: &[char]) -> (r: Vec<char>)
    ensures
        r@ == strip_app_suffix(n@),
{
    let suffix = chars_of(".app");
    let mut end = n.len();
    proof {
        reveal_strlit(".app");
        assert(n@.take(end as int) =~= n@);
    }
    while end >= 4 && crate::text::matches_at(n, &suffix, end - 4)
        invariant
            end <= n@.len(),
            suffix@ == ".app"@,
            suffix@.len() == 4,
            strip_app_suffix(n@.take(end as int)) == strip_app_suffix(n@),
        decreases end,
    {
        proof {
            reveal_strlit(".app");
            let q = n@.take(end as int);
            assert(n@.subrange(end - 4, end as int) =~= q.skip(q.len() - 4));
            assert(q.take(q.len() - 4) =~= n@.take(end - 4));
        }
        end = end - 4;
    }
    proof {
        reveal_strlit(".app");
        let q = n@.take(end as int);
        if end >= 4 {
            assert(n@.subrange(end - 4, end as int) =~= q.skip(q.len() - 4));
        }
    }
    sub_chars(n, 0, end)
}

/// The display name of an application bundle.
pub fn app_name_from_path(path: &str) -> (r: String)
    ensures
        r@ == app_name(path@),
{
    match path_file_name(path) {
        Some(name) => {
            let chars = chars_of(name.as_str());
            let stripped = strip_app_suffix_chars(&chars);
            if stripped.len() > 0 {
                string_of(&stripped)
            } else {
                String::from_str(path)
            }
        },
        None => String::from_str(path),
    }
}


proof fn lemma_seg_chars(p: Seq<char>)
    ensures
        forall|i: int| p.len() - seg_len(p) <= i < p.len() ==> #[trigger] p[i] != '/',
    decreases p.len(),
{
    lemma_seg_len_bound(p);
    if p.len() > 0 && p.last() != '/' {
        lemma_seg_chars(p.drop_last());
        assert forall|i: int| p.len() - seg_len(p) <= i < p.len() implies #[trigger] p[i] != '/' by {
            if i < p.len() - 1 {
                assert(p[i] == p.drop_last()[i]);
            }
        }
    }
}

/// A text with no `'/'`.
pub open spec fn slash_free(n: Seq<char>) -> bool {
    forall|i: int| 0 <= i < n.len() ==> #[trigger] n[i] != '/'
}

proof fn lemma_file_name_props(p: Seq<char>)
    ensures
        file_name(p) matches Some(n) ==> n.len() > 0 && slash_free(n) && p.len() > 0,
    decreases p.len(),
{
    if p.len() == 0 {
    } else if p.last() == '/' {
        lemma_file_name_props(p.drop_last());
    } else {
        lemma_seg_len_bound(p);
        lemma_seg_chars(p);
        let k = p.len() - seg_len(p);
        let seg = p.skip(k);
        if seg == ".."@ {
        } else if seg == "."@ {
            if k > 0 {
                lemma_file_name_props(p.take(k));
            }
        } else {
            assert(seg_len(p) > 0);
            assert forall|i: int| 0 <= i < seg.len() implies #[trigger] seg[i] != '/' by {
                assert(seg[i] == p[k + i]);
            }
        }
    }
}

/// The text ends with `".app"`.
pub open spec fn ends_with_app(n: Seq<char>) -> bool {
    n.len() >= 4 && n.skip(n.len() - 4) == ".app"@
}

proof fn lemma_strip_props(n: Seq<char>)
    ensures
        strip_app_suffix(n) == n.take(strip_app_suffix(n).len() as int),
        strip_app_suffix(n).len() <= n.len(),
        !ends_with_app(strip_app_suffix(n)),
    decreases n.len(),
{
    if ends_with_app(n) {
        lemma_strip_props(n.take(n.len() - 4));
        assert(n.take(n.len() - 4).take(strip_app_suffix(n).len() as int) =~= n.take(
            strip_app_suffix(n).len() as int,
        ));
    } else {
        assert(n.take(n.len() as int) =~= n);
    }
}

/// The display name is empty exactly when the path is; it is the path
/// itself, or the path's last component with every trailing `.app` removed,
/// non-empty and free of `'/'`; and naming the name again changes nothing.
pub proof fn law_app_name(path: Seq<char>)
    ensures
        app_name(path).len() == 0 <==> path.len() == 0,
        app_name(path) == path || ({
            let n = app_name(path);
            &&& file_name(path) is Some
            &&& n == strip_app_suffix(file_name(path)->0)
            &&& n.len() > 0
            &&& slash_free(n)
            &&& !ends_with_app(n)
        }),
        app_name(app_name(path)) == app_name(path),
{
    lemma_file_name_props(path);
    if let Some(f) = file_name(path) {
        let n = strip_app_suffix(f);
        lemma_strip_props(f);
        if n.len() > 0 {
            assert forall|i: int| 0 <= i < n.len() implies #[trigger] n[i] != '/' by {
                assert(n[i] == f[i]);
            }
            assert(n.last() == n[n.len() - 1]);
            lemma_seg_len_is(n, n.len() as int);
            assert(n.skip(0) =~= n);
            reveal_strlit(".app");
        }
    }
}

} // verus!
