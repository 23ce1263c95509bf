//! The managed proxy block in shell start-up files: rendering it, removing
//! it, and deciding what each start-up file becomes.

use vstd::prelude::*;

use crate::text::{
    chars_of, contains, decimal, find, find_chars, is_trimmed, is_ws, lead_ws, lemma_find,
    lemma_find_is, lemma_lead_ws_is, lemma_match_in_subrange, lemma_not_contains_subrange,
    lemma_trail_ws_is, lemma_trim_is_trimmed, lemma_trimmed_fixed, match_at, push_decimal, str_eq,
    string_of, sub_chars, trim, trim_chars, trim_end, trim_end_chars, trim_start,
    trim_start_chars,
};

verus! {

/// First line of the managed block.
pub open spec fn start_marker() -> Seq<char> {
    "# >>> AstrillSplitProxy"@
}

/// Last line of the managed block.
pub open spec fn end_marker() -> Seq<char> {
    "# <<< AstrillSplitProxy"@
}

pub fn start_marker_chars() -> (v: Vec<char>)
    ensures
        v@ == start_marker(),
{
    chars_of("# >>> AstrillSplitProxy")
}

pub fn end_marker_chars() -> (v: Vec<char>)
    ensures
        v@ == end_marker(),
{
    chars_of("# <<< AstrillSplitProxy")
}

/// The facts about the two markers that the proofs use.
pub proof fn lemma_markers()
    ensures
        start_marker().len() == 23,
        end_marker().len() == 23,
        start_marker()[0] == '#',
        end_marker()[0] == '#',
        start_marker()[2] == '>',
        end_marker()[2] == '<',
        forall|i: int| 1 <= i < 23 ==> #[trigger] start_marker()[i] != '#',
        forall|i: int| 0 <= i < 23 ==> #[trigger] start_marker()[i] != '\n',
        forall|i: int| 1 <= i < 23 ==> #[trigger] end_marker()[i] != '#',
{
    reveal_strlit("# >>> AstrillSplitProxy");
    reveal_strlit("# <<< AstrillSplitProxy");
}


/// `remove_managed_block`: the text with its first managed block cut out
/// (from the first start marker to the first end marker after it) and the
/// two sides joined by one line break; the whole is then trimmed. Without a
/// complete block only trailing whitespace goes.
pub open spec fn remove_block(t: Seq<char>) -> Seq<char> {
    match find(t, start_marker()) {
        None => trim_end(t),
        Some(s) => match find(t.skip(s), end_marker()) {
            None => trim_end(t),
            Some(e) => trim(
                trim_end(t.take(s)) + seq!['\n'] + trim_start(t.skip(s + e + end_marker().len())),
            ),
        },
    }
}

/// Removes the managed proxy block from a shell start-up file's text.
pub fn remove_managed_block(text: &str) -> (r: String)
    ensures
        r@ == remove_block(text@),
{
    let t = chars_of(text);
    let start = start_marker_chars();
    let end_mark = end_marker_chars();
    match find_chars(&t, &start) {
        None => string_of(&trim_end_chars(&t)),
        Some(s) => {
            proof {
                lemma_find(t@, start@);
            }
            let rest = sub_chars(&t, s, t.len());
            proof {
                assert(rest@ =~= t@.skip(s as int));
            }
            match find_chars(&rest, &end_mark) {
                None => string_of(&trim_end_chars(&t)),
                Some(e) => {
                    proof {
                        lemma_find(rest@, end_mark@);
                    }
                    let end = s + e + end_mark.len();
                    let head = sub_chars(&t, 0, s);
                    let tail = sub_chars(&t, end, t.len());
                    let mut joined = trim_end_chars(&head);
                    let ghost left = joined@;
                    joined.push('\n');
                    let mut after = trim_start_chars(&tail);
                    let ghost right = after@;
                    joined.append(&mut after);
                    proof {
                        assert(head@ =~= t@.take(s as int));
                        assert(tail@ =~= t@.skip(end as int));
                        assert(joined@ =~= left + seq!['\n'] + right);
                        assert(joined@ =~= trim_end(t@.take(s as int)) + seq!['\n'] + trim_start(
                            t@.skip(s + e + end_marker().len()),
                        ));
                    }
                    string_of(&trim_chars(&joined))
                },
            }
        },
    }
}

/// Text of the block between the start marker and the end marker.
pub open spec fn block_body(fish: bool, http_port: u16, socks_port: u16) -> Seq<char> {
    let h = decimal(http_port as nat);
    let s = decimal(socks_port as nat);
    if fish {
        "\nset -gx http_proxy \"http://127.0.0.1:"@ + h + "\"\nset -gx https_proxy \"http://127.0.0.1:"@
            + h + "\"\nset -gx all_proxy \"socks5h://127.0.0.1:"@ + s
            + "\"\nset -gx HTTP_PROXY $http_proxy\nset -gx HTTPS_PROXY $https_proxy\nset -gx ALL_PROXY $all_proxy\nset -q no_proxy; or set -gx no_proxy \"localhost,127.0.0.1,::1\"\nset -q NO_PROXY; or set -gx NO_PROXY $no_proxy\n"@
    } else {
        "\nexport http_proxy=\"http://127.0.0.1:"@ + h + "\"\nexport https_proxy=\"http://127.0.0.1:"@
            + h + "\"\nexport all_proxy=\"socks5h://127.0.0.1:"@ + s
            + "\"\nexport HTTP_PROXY=\"$http_proxy\"\nexport HTTPS_PROXY=\"$https_proxy\"\nexport ALL_PROXY=\"$all_proxy\"\nexport no_proxy=\"localhost,127.0.0.1,::1\"\nexport NO_PROXY=\"$no_proxy\"\n"@
    }
}

/// The managed block for a shell: fish syntax for `"fish"`, POSIX `export`
/// lines for any other shell, each line ending in a line break.
pub open spec fn block_text(shell: Seq<char>, http_port: u16, socks_port: u16) -> Seq<char> {
    start_marker() + block_body(shell == "fish"@, http_port, socks_port) + end_marker() + "\n"@
}

/// The proxy settings block that is written into a shell's start-up file.
pub fn shell_block(shell: &str, http_port: u16, socks_port: u16) -> (r: String)
    ensures
        r@ == block_text(shell@, http_port, socks_port),
{
    let fish = str_eq(shell, "fish");
    let mut out = String::from_str("# >>> AstrillSplitProxy");
    if fish {
        out.append("\nset -gx http_proxy \"http://127.0.0.1:");
        push_decimal(&mut out, http_port as u32);
        out.append("\"\nset -gx https_proxy \"http://127.0.0.1:");
        push_decimal(&mut out, http_port as u32);
        out.append("\"\nset -gx all_proxy \"socks5h://127.0.0.1:");
        push_decimal(&mut out, socks_port as u32);
        out.append(
            "\"\nset -gx HTTP_PROXY $http_proxy\nset -gx HTTPS_PROXY $https_proxy\nset -gx ALL_PROXY $all_proxy\nset -q no_proxy; or set -gx no_proxy \"localhost,127.0.0.1,::1\"\nset -q NO_PROXY; or set -gx NO_PROXY $no_proxy\n",
        );
    } else {
        out.append("\nexport http_proxy=\"http://127.0.0.1:");
        push_decimal(&mut out, http_port as u32);
        out.append("\"\nexport https_proxy=\"http://127.0.0.1:");
        push_decimal(&mut out, http_port as u32);
        out.append("\"\nexport all_proxy=\"socks5h://127.0.0.1:");
        push_decimal(&mut out, socks_port as u32);
        out.append(
            "\"\nexport HTTP_PROXY=\"$http_proxy\"\nexport HTTPS_PROXY=\"$https_proxy\"\nexport ALL_PROXY=\"$all_proxy\"\nexport no_proxy=\"localhost,127.0.0.1,::1\"\nexport NO_PROXY=\"$no_proxy\"\n",
        );
    }
    out.append("# <<< AstrillSplitProxy");
    out.append("\n");
    proof {
        assert(out@ =~= block_text(shell@, http_port, socks_port));
    }
    out
}


/// No `'#'` anywhere in the text.
pub open spec fn hash_free(s: Seq<char>) -> bool {
    forall|i: int| 0 <= i < s.len() ==> #[trigger] s[i] != '#'
}

proof fn lemma_hash_free_concat(a: Seq<char>, b: Seq<char>)
    requires
        hash_free(a),
        hash_free(b),
    ensures
        hash_free(a + b),
{
    assert forall|i: int| 0 <= i < (a + b).len() implies #[trigger] (a + b)[i] != '#' by {
        if i < a.len() {
            assert((a + b)[i] == a[i]);
        } else {
            assert((a + b)[i] == b[i - a.len()]);
        }
    }
}

proof fn lemma_decimal_hash_free(n: nat)
    ensures
        hash_free(decimal(n)),
    decreases n,
{
    if n >= 10 {
        lemma_decimal_hash_free(n / 10);
        assert(hash_free(decimal(n / 10).push(crate::text::digit_char(n % 10)))) by {
            assert forall|i: int| 0 <= i < decimal(n).len() implies #[trigger] decimal(n)[i]
                != '#' by {
                if i < decimal(n / 10).len() {
                    assert(decimal(n)[i] == decimal(n / 10)[i]);
                }
            }
        }
    }
}

proof fn lemma_body_hash_free(fish: bool, http_port: u16, socks_port: u16)
    ensures
        hash_free(block_body(fish, http_port, socks_port)),
{
    let h = decimal(http_port as nat);
    let s = decimal(socks_port as nat);
    lemma_decimal_hash_free(http_port as nat);
    lemma_decimal_hash_free(socks_port as nat);
    if fish {
        let a = "\nset -gx http_proxy \"http://127.0.0.1:"@;
        let b = "\"\nset -gx https_proxy \"http://127.0.0.1:"@;
        let c = "\"\nset -gx all_proxy \"socks5h://127.0.0.1:"@;
        let d = "\"\nset -gx HTTP_PROXY $http_proxy\nset -gx HTTPS_PROXY $https_proxy\nset -gx ALL_PROXY $all_proxy\nset -q no_proxy; or set -gx no_proxy \"localhost,127.0.0.1,::1\"\nset -q NO_PROXY; or set -gx NO_PROXY $no_proxy\n"@;
        reveal_strlit("\nset -gx http_proxy \"http://127.0.0.1:");
        reveal_strlit("\"\nset -gx https_proxy \"http://127.0.0.1:");
        reveal_strlit("\"\nset -gx all_proxy \"socks5h://127.0.0.1:");
        reveal_strlit(
            "\"\nset -gx HTTP_PROXY $http_proxy\nset -gx HTTPS_PROXY $https_proxy\nset -gx ALL_PROXY $all_proxy\nset -q no_proxy; or set -gx no_proxy \"localhost,127.0.0.1,::1\"\nset -q NO_PROXY; or set -gx NO_PROXY $no_proxy\n",
        );
        assert(hash_free(a));
        assert(hash_free(b));
        assert(hash_free(c));
        assert(hash_free(d));
        lemma_hash_free_concat(a, h);
        lemma_hash_free_concat(a + h, b);
        lemma_hash_free_concat(a + h + b, h);
        lemma_hash_free_concat(a + h + b + h, c);
        lemma_hash_free_concat(a + h + b + h + c, s);
        lemma_hash_free_concat(a + h + b + h + c + s, d);
    } else {
        let a = "\nexport http_proxy=\"http://127.0.0.1:"@;
        let b = "\"\nexport https_proxy=\"http://127.0.0.1:"@;
        let c = "\"\nexport all_proxy=\"socks5h://127.0.0.1:"@;
        let d = "\"\nexport HTTP_PROXY=\"$http_proxy\"\nexport HTTPS_PROXY=\"$https_proxy\"\nexport ALL_PROXY=\"$all_proxy\"\nexport no_proxy=\"localhost,127.0.0.1,::1\"\nexport NO_PROXY=\"$no_proxy\"\n"@;
        reveal_strlit("\nexport http_proxy=\"http://127.0.0.1:");
        reveal_strlit("\"\nexport https_proxy=\"http://127.0.0.1:");
        reveal_strlit("\"\nexport all_proxy=\"socks5h://127.0.0.1:");
        reveal_strlit(
            "\"\nexport HTTP_PROXY=\"$http_proxy\"\nexport HTTPS_PROXY=\"$https_proxy\"\nexport ALL_PROXY=\"$all_proxy\"\nexport no_proxy=\"localhost,127.0.0.1,::1\"\nexport NO_PROXY=\"$no_proxy\"\n",
        );
        assert(hash_free(a));
        assert(hash_free(b));
        assert(hash_free(c));
        assert(hash_free(d));
        lemma_hash_free_concat(a, h);
        lemma_hash_free_concat(a + h, b);
        lemma_hash_free_concat(a + h + b, h);
        lemma_hash_free_concat(a + h + b + h, c);
        lemma_hash_free_concat(a + h + b + h + c, s);
        lemma_hash_free_concat(a + h + b + h + c + s, d);
    }
}


/// The whole block for a body.
pub open spec fn framed(body: Seq<char>) -> Seq<char> {
    start_marker() + body + end_marker() + "\n"@
}

proof fn lemma_newline_lit()
    ensures
        "\n"@ == seq!['\n'],
        "\n\n"@ == seq!['\n', '\n'],
{
    reveal_strlit("\n");
    reveal_strlit("\n\n");
    assert("\n"@ =~= seq!['\n']);
    assert("\n\n"@ =~= seq!['\n', '\n']);
}

/// In a framed block the first end marker is the block's own.
proof fn lemma_find_end_in_framed(body: Seq<char>)
    requires
        hash_free(body),
    ensures
        find(framed(body), end_marker()) == Some(23 + body.len() as int),
        framed(body).len() == 23 + body.len() + 24,
        framed(body).take(23) == start_marker(),
        framed(body)[0] == '#',
{
    lemma_markers();
    lemma_newline_lit();
    let b = framed(body);
    let e: int = 23 + body.len() as int;
    assert(b.subrange(e, e + 23) =~= end_marker());
    assert forall|j: int| 0 <= j < e implies !#[trigger] match_at(b, end_marker(), j) by {
        if match_at(b, end_marker(), j) {
            assert(b.subrange(j, j + 23)[0] == end_marker()[0]);
            assert(b.subrange(j, j + 23)[2] == end_marker()[2]);
            if j == 0 {
                assert(b[2] == start_marker()[2]);
            } else if j < 23 {
                assert(b[j] == start_marker()[j]);
            } else {
                assert(b[j] == body[j - 23]);
            }
        }
    }
    lemma_find_is(b, end_marker(), e);
    assert(b.take(23) =~= start_marker());
}

/// After a text without a start marker and two line breaks, the first start
/// marker is the one that begins the block.
proof fn lemma_find_start_after(x: Seq<char>, b: Seq<char>)
    requires
        !contains(x, start_marker()),
        b.len() >= 23,
        b.take(23) == start_marker(),
    ensures
        find(x + "\n\n"@ + b, start_marker()) == Some(x.len() as int + 2),
{
    lemma_markers();
    lemma_newline_lit();
    lemma_find(x, start_marker());
    let u = x + "\n\n"@ + b;
    let p: int = x.len() as int + 2;
    assert(u.subrange(p, p + 23) =~= b.take(23));
    assert forall|j: int| 0 <= j < p implies !#[trigger] match_at(u, start_marker(), j) by {
        if match_at(u, start_marker(), j) {
            assert(u.subrange(j, j + 23)[0] == '#');
            if j >= x.len() {
                assert(u[j] == '\n');
            } else if j + 23 <= x.len() {
                assert(x.subrange(j, j + 23) =~= u.subrange(j, j + 23));
                assert(match_at(x, start_marker(), j));
            } else {
                let k = x.len() - j;
                assert(u.subrange(j, j + 23)[k] == u[x.len() as int]);
                assert(u[x.len() as int] == '\n');
                assert(start_marker()[k] != '\n');
            }
        }
    }
    lemma_find_is(u, start_marker(), p);
}

/// A trimmed text followed by a line break trims back to itself.
proof fn lemma_trim_newline(x: Seq<char>)
    requires
        is_trimmed(x),
    ensures
        trim(x + seq!['\n']) == x,
{
    let y = x + seq!['\n'];
    assert(is_ws('\n'));
    if x.len() == 0 {
        lemma_lead_ws_is(y, 1);
        assert(trim_start(y) =~= Seq::<char>::empty());
        lemma_trail_ws_is(trim_start(y), 0);
        assert(trim(y) =~= x);
    } else {
        lemma_lead_ws_is(y, 0);
        assert(trim_start(y) =~= y);
        assert(y[y.len() - 2] == x.last());
        lemma_trail_ws_is(y, 1);
        assert(trim(y) =~= x);
    }
}

/// Removing the block from freshly enabled text gives back the trimmed text
/// that preceded it, and that text still holds both markers.
proof fn lemma_remove_after_enable(x: Seq<char>, body: Seq<char>)
    requires
        is_trimmed(x),
        !contains(x, start_marker()),
        hash_free(body),
    ensures
        remove_block(trim_start(x + "\n\n"@ + framed(body))) == x,
        contains(trim_start(x + "\n\n"@ + framed(body)), start_marker()),
        contains(trim_start(x + "\n\n"@ + framed(body)), end_marker()),
{
    lemma_markers();
    lemma_newline_lit();
    let b = framed(body);
    lemma_find_end_in_framed(body);
    let u = x + "\n\n"@ + b;
    assert(is_ws('\n'));
    let t = trim_start(u);
    let p: int = if x.len() == 0 {
        0
    } else {
        x.len() + 2 as int
    };
    if x.len() == 0 {
        assert(u[0] == '\n' && u[1] == '\n' && u[2] == b[0]);
        lemma_lead_ws_is(u, 2);
        assert(t =~= b);
        assert(b.subrange(0, 23) =~= start_marker());
        lemma_find_is(b, start_marker(), 0);
    } else {
        lemma_lead_ws_is(u, 0);
        assert(t =~= u);
        lemma_find_start_after(x, b);
    }
    assert(t.skip(p) =~= b);
    let e: int = 23 + body.len() as int;
    let end = p + e + 23;
    assert(t.take(p) =~= if x.len() == 0 {
        Seq::<char>::empty()
    } else {
        x + seq!['\n', '\n']
    });
    if x.len() == 0 {
        lemma_trail_ws_is(t.take(p), 0);
    } else {
        assert(t.take(p)[t.take(p).len() - 3] == x.last());
        lemma_trail_ws_is(t.take(p), 2);
    }
    assert(trim_end(t.take(p)) =~= x);
    assert(t.skip(end) =~= seq!['\n']);
    lemma_lead_ws_is(t.skip(end), 1);
    assert(trim_start(t.skip(end)) =~= Seq::<char>::empty());
    assert(trim_end(t.take(p)) + seq!['\n'] + trim_start(t.skip(end)) =~= x + seq!['\n']);
    lemma_trim_newline(x);
    lemma_find(t, start_marker());
    lemma_find(b, end_marker());
    assert(t.subrange(p, t.len() as int) =~= b);
    lemma_match_in_subrange(t, end_marker(), p, t.len() as int, e);
    lemma_find(t, end_marker());
    lemma_find_is(t, start_marker(), p);
}

/// Removing the block from a trimmed text followed by a blank line and the
/// block gives back the trimmed text.
proof fn lemma_remove_appended(x: Seq<char>, body: Seq<char>)
    requires
        is_trimmed(x),
        !contains(x, start_marker()),
        hash_free(body),
    ensures
        remove_block(x + "\n\n"@ + framed(body)) == x,
{
    lemma_markers();
    lemma_newline_lit();
    let b = framed(body);
    lemma_find_end_in_framed(body);
    let t = x + "\n\n"@ + b;
    assert(is_ws('\n'));
    let p: int = x.len() + 2 as int;
    lemma_find_start_after(x, b);
    assert(t.skip(p) =~= b);
    let e: int = 23 + body.len() as int;
    let end = p + e + 23;
    assert(t.take(p) =~= x + seq!['\n', '\n']);
    if x.len() > 0 {
        assert(t.take(p)[t.take(p).len() - 3] == x.last());
    }
    lemma_trail_ws_is(t.take(p), 2);
    assert(trim_end(t.take(p)) =~= x);
    assert(t.skip(end) =~= seq!['\n']);
    lemma_lead_ws_is(t.skip(end), 1);
    assert(trim_start(t.skip(end)) =~= Seq::<char>::empty());
    assert(trim_end(t.take(p)) + seq!['\n'] + trim_start(t.skip(end)) =~= x + seq!['\n']);
    lemma_trim_newline(x);
}

/// What becomes of one shell start-up file.
pub enum ShellFileAction {
    /// Write this text to the file.
    Write(String),
    /// Delete the file.
    Remove,
}

impl ShellFileAction {
    /// The written text, or `None` for a deletion.
    pub open spec fn model(self) -> Option<Seq<char>> {
        match self {
            ShellFileAction::Write(t) => Some(t@),
            ShellFileAction::Remove => None,
        }
    }
}

/// The file text once the proxy block is (re)installed: the old text without
/// its block, trimmed, a blank line, then the block; leading whitespace dropped.
pub open spec fn enabled_text(old: Seq<char>, block: Seq<char>) -> Seq<char> {
    trim_start(trim(remove_block(old)) + "\n\n"@ + block)
}

/// What a shell start-up file becomes when the shell proxy is switched on
/// (the block is installed) or off (the block is removed, and a file left
/// blank is deleted).
pub open spec fn planned_file(old: Seq<char>, block: Seq<char>, enabled: bool) -> Option<
    Seq<char>,
> {
    if enabled {
        Some(enabled_text(old, block))
    } else if trim(remove_block(old)).len() == 0 {
        None
    } else {
        Some(remove_block(old))
    }
}

/// Decides the new content of one shell start-up file, given its current
/// text (empty when it cannot be read).
pub fn plan_shell_file(old: &str, shell: &str, http_port: u16, socks_port: u16, enabled: bool) -> (r:
    ShellFileAction)
    ensures
        r.model() == planned_file(old@, block_text(shell@, http_port, socks_port), enabled),
{
    let cleaned = remove_managed_block(old);
    let cleaned_chars = chars_of(cleaned.as_str());
    let trimmed = trim_chars(&cleaned_chars);
    if enabled {
        let block = shell_block(shell, http_port, socks_port);
        let mut next = trimmed;
        next.push('\n');
        next.push('\n');
        let mut block_chars = chars_of(block.as_str());
        let ghost b = block_chars@;
        next.append(&mut block_chars);
        proof {
            lemma_newline_lit();
            assert(next@ =~= trim(remove_block(old@)) + "\n\n"@ + b);
        }
        let text = trim_start_chars(&next);
        ShellFileAction::Write(string_of(&text))
    } else if trimmed.len() == 0 {
        ShellFileAction::Remove
    } else {
        ShellFileAction::Write(cleaned)
    }
}

/// The text holds both markers of the managed block.
pub open spec fn has_block(t: Seq<char>) -> bool {
    contains(t, start_marker()) && contains(t, end_marker())
}

/// Whether a shell start-up file's text holds the managed block.
pub fn has_managed_block(text: &str) -> (r: bool)
    ensures
        r == has_block(text@),
{
    let t = chars_of(text);
    let start = start_marker_chars();
    let end_mark = end_marker_chars();
    crate::text::contains_chars(&t, &start) && crate::text::contains_chars(&t, &end_mark)
}

proof fn lemma_block_is_framed(shell: Seq<char>, http_port: u16, socks_port: u16)
    ensures
        block_text(shell, http_port, socks_port) == framed(
            block_body(shell == "fish"@, http_port, socks_port),
        ),
        hash_free(block_body(shell == "fish"@, http_port, socks_port)),
{
    lemma_body_hash_free(shell == "fish"@, http_port, socks_port);
}

proof fn lemma_trim_subrange(y: Seq<char>)
    ensures
        trim(y) == y.subrange(lead_ws(y) as int, (lead_ws(y) + trim(y).len()) as int),
        lead_ws(y) + trim(y).len() <= y.len(),
{
    crate::text::lemma_lead_ws_bound(y);
    crate::text::lemma_trail_ws_bound(trim_start(y));
    assert(trim(y) =~= y.subrange(lead_ws(y) as int, (lead_ws(y) + trim(y).len()) as int));
}

/// Switching the shell proxy on and then off leaves a start-up file holding
/// its earlier text without the block, trimmed; a file that held nothing else
/// is deleted. This holds whenever that earlier text, once its block is
/// removed, holds no further start marker.
pub proof fn law_enable_then_disable(old: Seq<char>, shell: Seq<char>, http_port: u16, socks_port: u16)
    requires
        !contains(remove_block(old), start_marker()),
    ensures
        ({
            let block = block_text(shell, http_port, socks_port);
            let kept = trim(remove_block(old));
            planned_file(enabled_text(old, block), block, false) == if kept.len() == 0 {
                None::<Seq<char>>
            } else {
                Some(kept)
            }
        }),
{
    let block = block_text(shell, http_port, socks_port);
    let y = remove_block(old);
    let x = trim(y);
    lemma_trim_is_trimmed(y);
    lemma_trim_subrange(y);
    lemma_not_contains_subrange(y, start_marker(), lead_ws(y) as int, (lead_ws(y) + x.len()) as int);
    lemma_block_is_framed(shell, http_port, socks_port);
    lemma_remove_after_enable(x, block_body(shell == "fish"@, http_port, socks_port));
    lemma_trimmed_fixed(x);
}

/// Switching the shell proxy on twice writes the same text as switching it
/// on once (under the same condition as above).
pub proof fn law_enable_idempotent(old: Seq<char>, shell: Seq<char>, http_port: u16, socks_port: u16)
    requires
        !contains(remove_block(old), start_marker()),
    ensures
        ({
            let block = block_text(shell, http_port, socks_port);
            planned_file(enabled_text(old, block), block, true) == Some(enabled_text(old, block))
        }),
{
    let y = remove_block(old);
    let x = trim(y);
    lemma_trim_is_trimmed(y);
    lemma_trim_subrange(y);
    lemma_not_contains_subrange(y, start_marker(), lead_ws(y) as int, (lead_ws(y) + x.len()) as int);
    lemma_block_is_framed(shell, http_port, socks_port);
    lemma_remove_after_enable(x, block_body(shell == "fish"@, http_port, socks_port));
    lemma_trimmed_fixed(x);
}

/// A start-up file with the shell proxy switched on holds the managed block,
/// whatever it held before.
pub proof fn law_enabled_file_has_block(old: Seq<char>, shell: Seq<char>, http_port: u16, socks_port: u16)
    ensures
        has_block(enabled_text(old, block_text(shell, http_port, socks_port))),
{
    let block = block_text(shell, http_port, socks_port);
    let x = trim(remove_block(old));
    lemma_trim_is_trimmed(remove_block(old));
    lemma_block_is_framed(shell, http_port, socks_port);
    lemma_markers();
    lemma_newline_lit();
    lemma_find_end_in_framed(block_body(shell == "fish"@, http_port, socks_port));
    let u = x + "\n\n"@ + block;
    let t = trim_start(u);
    let p: int = if x.len() == 0 { 0 } else { x.len() + 2 as int };
    assert(is_ws('\n'));
    if x.len() == 0 {
        assert(u[0] == '\n' && u[1] == '\n' && u[2] == block[0]);
        lemma_lead_ws_is(u, 2);
    } else {
        lemma_lead_ws_is(u, 0);
    }
    assert(t.subrange(p, t.len() as int) =~= block);
    assert(block.subrange(0, 23) =~= start_marker());
    lemma_match_in_subrange(t, start_marker(), p, t.len() as int, 0);
    lemma_find(block, end_marker());
    lemma_match_in_subrange(t, end_marker(), p, t.len() as int, 23 + block_body(
        shell == "fish"@,
        http_port,
        socks_port,
    ).len() as int);
    lemma_find(t, start_marker());
    lemma_find(t, end_marker());
}


/// The text holds a start marker with an end marker after it: a block that
/// `remove_block` removes.
pub open spec fn has_complete_block(t: Seq<char>) -> bool {
    match find(t, start_marker()) {
        Some(s) => find(t.skip(s), end_marker()) is Some,
        None => false,
    }
}

/// A text without whitespace at its end is left alone by `trim_end`.
proof fn lemma_trim_end_fixed(z: Seq<char>)
    requires
        z.len() == 0 || !is_ws(z.last()),
    ensures
        trim_end(z) == z,
{
    lemma_trail_ws_is(z, 0);
    assert(z.take(z.len() as int) =~= z);
}

/// What `remove_block` gives has no whitespace at its end.
proof fn lemma_remove_block_end_trimmed(t: Seq<char>)
    ensures
        remove_block(t).len() == 0 || !is_ws(remove_block(t).last()),
{
    crate::text::lemma_trail_ws_bound(t);
    let y = remove_block(t);
    if y == trim_end(t) {
        if y.len() > 0 {
            assert(y.last() == t[t.len() - crate::text::trail_ws(t) - 1]);
        }
    } else {
        match find(t, start_marker()) {
            Some(s) => match find(t.skip(s), end_marker()) {
                Some(e) => {
                    lemma_trim_is_trimmed(
                        trim_end(t.take(s)) + seq!['\n'] + trim_start(
                            t.skip(s + e + end_marker().len()),
                        ),
                    );
                },
                None => {},
            },
            None => {},
        }
    }
}

/// Removing the block that switching the shell proxy on appends gives back
/// the text it was appended to, trimmed, whether or not leading whitespace
/// was dropped from the written text, for a text without a start marker.
pub proof fn law_remove_appended_block(c: Seq<char>, shell: Seq<char>, http_port: u16, socks_port: u16)
    requires
        !contains(c, start_marker()),
    ensures
        remove_block(trim(c) + "\n\n"@ + block_text(shell, http_port, socks_port)) == trim(c),
        remove_block(trim_start(trim(c) + "\n\n"@ + block_text(shell, http_port, socks_port)))
            == trim(c),
{
    let x = trim(c);
    lemma_trim_is_trimmed(c);
    lemma_trim_subrange(c);
    lemma_not_contains_subrange(c, start_marker(), lead_ws(c) as int, (lead_ws(c) + x.len()) as int);
    lemma_block_is_framed(shell, http_port, socks_port);
    lemma_remove_appended(x, block_body(shell == "fish"@, http_port, socks_port));
    lemma_remove_after_enable(x, block_body(shell == "fish"@, http_port, socks_port));
}

/// Switching the shell proxy off twice changes nothing: the second time
/// writes the same text again, or, when the file was deleted, deletes the
/// (now empty) file again. This holds when the file the first time left
/// holds no start marker with an end marker after it.
pub proof fn law_disable_idempotent(old: Seq<char>, block: Seq<char>)
    requires
        planned_file(old, block, false) matches Some(y) ==> !has_complete_block(y),
    ensures
        planned_file(old, block, false) matches Some(y) ==> planned_file(y, block, false) == Some(
            y,
        ),
        planned_file(old, block, false) is None ==> planned_file(Seq::<char>::empty(), block, false)
            is None,
{
    let y = remove_block(old);
    lemma_remove_block_end_trimmed(old);
    lemma_trim_end_fixed(y);
    if planned_file(old, block, false) is Some {
        assert(remove_block(y) == trim_end(y));
    }
    let empty = Seq::<char>::empty();
    lemma_find(empty, start_marker());
    lemma_markers();
    lemma_trim_end_fixed(empty);
    assert(remove_block(empty) == empty);
    lemma_trimmed_fixed(empty);
}


/// Every shell other than fish gets the same block.
pub proof fn law_non_fish_blocks_equal(a: Seq<char>, b: Seq<char>, http_port: u16, socks_port: u16)
    requires
        a != "fish"@,
        b != "fish"@,
    ensures
        block_text(a, http_port, socks_port) == block_text(b, http_port, socks_port),
{
}

/// In every block the start marker occurs once, at its beginning, and the
/// end marker occurs once, followed only by the final line break.
pub proof fn law_block_markers(shell: Seq<char>, http_port: u16, socks_port: u16)
    ensures
        ({
            let b = block_text(shell, http_port, socks_port);
            let e = b.len() - 24;
            &&& match_at(b, start_marker(), 0)
            &&& forall|j: int| j != 0 ==> !#[trigger] match_at(b, start_marker(), j)
            &&& match_at(b, end_marker(), e)
            &&& forall|j: int| j != e ==> !#[trigger] match_at(b, end_marker(), j)
            &&& b.skip(e + 23) == "\n"@
        }),
{
    lemma_markers();
    lemma_newline_lit();
    lemma_block_is_framed(shell, http_port, socks_port);
    let body = block_body(shell == "fish"@, http_port, socks_port);
    let b = framed(body);
    let e = b.len() - 24;
    assert(e == 23 + body.len());
    assert(b.subrange(0, 23) =~= start_marker());
    assert(b.subrange(e, e + 23) =~= end_marker());
    assert(b.skip(e + 23) =~= "\n"@);
    assert forall|j: int| 0 <= j < b.len() && b[j] == '#' implies j == 0 || j == e by {
        if 1 <= j < 23 {
            assert(b[j] == start_marker()[j]);
        } else if 23 <= j < e {
            assert(b[j] == body[j - 23]);
        } else if e < j < e + 23 {
            assert(b[j] == end_marker()[j - e]);
        } else if j == e + 23 {
            assert(b[j] == '\n');
        }
    }
    assert forall|j: int| j != 0 implies !#[trigger] match_at(b, start_marker(), j) by {
        if match_at(b, start_marker(), j) {
            assert(b.subrange(j, j + 23)[0] == b[j]);
            assert(b.subrange(j, j + 23)[2] == b[j + 2]);
            if j == e {
                assert(b[e + 2] == end_marker()[2]);
            }
        }
    }
    assert forall|j: int| j != e implies !#[trigger] match_at(b, end_marker(), j) by {
        if match_at(b, end_marker(), j) {
            assert(b.subrange(j, j + 23)[0] == b[j]);
            assert(b.subrange(j, j + 23)[2] == b[j + 2]);
            if j == 0 {
                assert(b[2] == start_marker()[2]);
            }
        }
    }
}


/// Switching the shell proxy on twice changes nothing, when the file the
/// first time wrote holds the start marker only once.
pub proof fn law_enable_twice(old: Seq<char>, shell: Seq<char>, http_port: u16, socks_port: u16)
    requires
        ({
            let t = enabled_text(old, block_text(shell, http_port, socks_port));
            forall|i: int, j: int|
                match_at(t, start_marker(), i) && match_at(t, start_marker(), j) ==> i == j
        }),
    ensures
        ({
            let block = block_text(shell, http_port, socks_port);
            planned_file(enabled_text(old, block), block, true) == Some(enabled_text(old, block))
        }),
{
    let block = block_text(shell, http_port, socks_port);
    let t = enabled_text(old, block);
    let x = trim(remove_block(old));
    lemma_trim_is_trimmed(remove_block(old));
    lemma_block_is_framed(shell, http_port, socks_port);
    lemma_markers();
    lemma_newline_lit();
    let body = block_body(shell == "fish"@, http_port, socks_port);
    lemma_find_end_in_framed(body);
    lemma_find(x, start_marker());
    if let Some(i) = find(x, start_marker()) {
        let u = x + "\n\n"@ + block;
        assert(x.len() > 0);
        lemma_lead_ws_is(u, 0);
        assert(t =~= u);
        assert(u.subrange(0, x.len() as int) =~= x);
        lemma_match_in_subrange(u, start_marker(), 0, x.len() as int, i);
        assert(u.subrange(x.len() + 2 as int, u.len() as int) =~= block);
        assert(block.subrange(0, 23) =~= start_marker());
        lemma_match_in_subrange(u, start_marker(), x.len() + 2 as int, u.len() as int, 0);
        assert(false);
    }
    lemma_remove_after_enable(x, body);
    lemma_trimmed_fixed(x);
}


/// A start marker holds nowhere in `a + "\n" + b` when it holds nowhere in
/// `a` nor in `b`.
proof fn lemma_no_start_across_newline(a: Seq<char>, b: Seq<char>)
    requires
        !contains(a, start_marker()),
        !contains(b, start_marker()),
    ensures
        !contains(a + seq!['\n'] + b, start_marker()),
{
    lemma_markers();
    let z = a + seq!['\n'] + b;
    lemma_find(a, start_marker());
    lemma_find(b, start_marker());
    assert forall|j: int| !#[trigger] match_at(z, start_marker(), j) by {
        if match_at(z, start_marker(), j) {
            if j + 23 <= a.len() {
                assert(z.subrange(j, j + 23) =~= a.subrange(j, j + 23));
                assert(match_at(a, start_marker(), j));
            } else if j > a.len() {
                let k = j - a.len() - 1;
                assert(z.subrange(j, j + 23) =~= b.subrange(k, k + 23));
                assert(match_at(b, start_marker(), k));
            } else {
                let k = a.len() - j;
                assert(z.subrange(j, j + 23)[k] == z[a.len() as int]);
                assert(z[a.len() as int] == '\n');
            }
        }
    }
    crate::text::lemma_find_none(z, start_marker());
}

/// The start marker occurs at most once, and where it occurs an end marker
/// follows it.
pub open spec fn single_block(old: Seq<char>) -> bool {
    &&& forall|i: int, j: int|
        match_at(old, start_marker(), i) && match_at(old, start_marker(), j) ==> i == j
    &&& contains(old, start_marker()) ==> has_complete_block(old)
}

/// A file whose start markers, if any, are one, followed by an end marker,
/// holds no start marker once its block is removed.
pub proof fn law_single_block_removed(old: Seq<char>)
    requires
        single_block(old),
    ensures
        !contains(remove_block(old), start_marker()),
{
    lemma_markers();
    crate::text::lemma_trail_ws_bound(old);
    lemma_find(old, start_marker());
    match find(old, start_marker()) {
        None => {
            assert(trim_end(old) =~= old.subrange(0, old.len() - crate::text::trail_ws(old)));
            lemma_not_contains_subrange(old, start_marker(), 0, old.len() - crate::text::trail_ws(
                old,
            ));
        },
        Some(s) => {
            let rest = old.skip(s);
            lemma_find(rest, end_marker());
            let e = find(rest, end_marker())->0;
            let end = s + e + 23;
            assert(end <= old.len());
            let head = old.take(s);
            let tail = old.skip(end);
            crate::text::lemma_trail_ws_bound(head);
            crate::text::lemma_lead_ws_bound(tail);
            let a = trim_end(head);
            let b = trim_start(tail);
            let al = head.len() - crate::text::trail_ws(head);
            let bl = end + lead_ws(tail);
            assert(a =~= old.subrange(0, al));
            assert(b =~= old.subrange(bl, old.len() as int));
            lemma_find(a, start_marker());
            if let Some(i) = find(a, start_marker()) {
                lemma_match_in_subrange(old, start_marker(), 0, al, i);
            }
            lemma_find(b, start_marker());
            if let Some(i) = find(b, start_marker()) {
                lemma_match_in_subrange(old, start_marker(), bl, old.len() as int, i);
            }
            lemma_no_start_across_newline(a, b);
            let z = a + seq!['\n'] + b;
            lemma_trim_subrange(z);
            lemma_not_contains_subrange(z, start_marker(), lead_ws(z) as int, (lead_ws(z) + trim(
                z,
            ).len()) as int);
        },
    }
}

/// A block body made of three proxy lines (`a`, `b`, `c` before the two
/// ports) holds each line whole, from its line break to the next.
#[verifier::spinoff_prover]
#[verifier::rlimit(40)]
proof fn lemma_proxy_lines(
    m: Seq<char>,
    a: Seq<char>,
    b: Seq<char>,
    b1: Seq<char>,
    b3: Seq<char>,
    c: Seq<char>,
    c1: Seq<char>,
    c2: Seq<char>,
    d: Seq<char>,
    d1: Seq<char>,
    h: Seq<char>,
    s: Seq<char>,
    t: Seq<char>,
)
    requires
        b == "\""@ + b1,
        b == "\"\n"@ + b3,
        c == "\""@ + c2,
        c == "\"\n"@ + c1,
        d == "\"\n"@ + d1,
    ensures
        contains(m + (a + h + b + h + c + s + d) + t, a + h + "\"\n"@),
        contains(m + (a + h + b + h + c + s + d) + t, b1 + h + "\"\n"@),
        contains(m + (a + h + b + h + c + s + d) + t, c2 + s + "\"\n"@),
{
    let q = "\""@;
    let qn = "\"\n"@;
    let whole = m + (a + h + b + h + c + s + d) + t;
    assert(contains(whole, a + h + qn)) by {
        assert(whole =~= m + (a + h + qn) + (b3 + h + c + s + d + t));
        crate::text::lemma_contains_middle(m, a + h + qn, b3 + h + c + s + d + t);
    }
    assert(contains(whole, b1 + h + qn)) by {
        assert(whole =~= (m + a + h + q) + (b1 + h + qn) + (c1 + s + d + t));
        crate::text::lemma_contains_middle(m + a + h + q, b1 + h + qn, c1 + s + d + t);
    }
    assert(contains(whole, c2 + s + qn)) by {
        assert(whole =~= (m + a + h + b + h + q) + (c2 + s + qn) + (d1 + t));
        crate::text::lemma_contains_middle(m + a + h + b + h + q, c2 + s + qn, d1 + t);
    }
}

/// Every block points `http_proxy` and `https_proxy` at the local HTTP port
/// and `all_proxy` at the local SOCKS port, each on a line of its own: in
/// fish syntax for fish, with `export` for the other shells.
#[verifier::spinoff_prover]
#[verifier::rlimit(40)]
pub proof fn law_block_proxy_lines(shell: Seq<char>, http_port: u16, socks_port: u16)
    ensures
        ({
            let b = block_text(shell, http_port, socks_port);
            let h = decimal(http_port as nat);
            let s = decimal(socks_port as nat);
            shell == "fish"@ ==> {
                &&& contains(b, "\nset -gx http_proxy \"http://127.0.0.1:"@ + h + "\"\n"@)
                &&& contains(b, "\nset -gx https_proxy \"http://127.0.0.1:"@ + h + "\"\n"@)
                &&& contains(b, "\nset -gx all_proxy \"socks5h://127.0.0.1:"@ + s + "\"\n"@)
            }
        }),
        ({
            let b = block_text(shell, http_port, socks_port);
            let h = decimal(http_port as nat);
            let s = decimal(socks_port as nat);
            shell != "fish"@ ==> {
                &&& contains(b, "\nexport http_proxy=\"http://127.0.0.1:"@ + h + "\"\n"@)
                &&& contains(b, "\nexport https_proxy=\"http://127.0.0.1:"@ + h + "\"\n"@)
                &&& contains(b, "\nexport all_proxy=\"socks5h://127.0.0.1:"@ + s + "\"\n"@)
            }
        }),
{
    let h = decimal(http_port as nat);
    let s = decimal(socks_port as nat);
    let m = start_marker();
    let t = end_marker() + "\n"@;
    let b = block_text(shell, http_port, socks_port);
    reveal_strlit("\"");
    reveal_strlit("\"\n");
    if shell == "fish"@ {
        let a = "\nset -gx http_proxy \"http://127.0.0.1:"@;
        let bb = "\"\nset -gx https_proxy \"http://127.0.0.1:"@;
        let b1 = "\nset -gx https_proxy \"http://127.0.0.1:"@;
        let b3 = "set -gx https_proxy \"http://127.0.0.1:"@;
        let c = "\"\nset -gx all_proxy \"socks5h://127.0.0.1:"@;
        let c1 = "set -gx all_proxy \"socks5h://127.0.0.1:"@;
        let c2 = "\nset -gx all_proxy \"socks5h://127.0.0.1:"@;
        let d = "\"\nset -gx HTTP_PROXY $http_proxy\nset -gx HTTPS_PROXY $https_proxy\nset -gx ALL_PROXY $all_proxy\nset -q no_proxy; or set -gx no_proxy \"localhost,127.0.0.1,::1\"\nset -q NO_PROXY; or set -gx NO_PROXY $no_proxy\n"@;
        let d1 = "set -gx HTTP_PROXY $http_proxy\nset -gx HTTPS_PROXY $https_proxy\nset -gx ALL_PROXY $all_proxy\nset -q no_proxy; or set -gx no_proxy \"localhost,127.0.0.1,::1\"\nset -q NO_PROXY; or set -gx NO_PROXY $no_proxy\n"@;
        reveal_strlit("\"\nset -gx https_proxy \"http://127.0.0.1:");
        reveal_strlit("\nset -gx https_proxy \"http://127.0.0.1:");
        reveal_strlit("set -gx https_proxy \"http://127.0.0.1:");
        reveal_strlit("\"\nset -gx all_proxy \"socks5h://127.0.0.1:");
        reveal_strlit("set -gx all_proxy \"socks5h://127.0.0.1:");
        reveal_strlit("\nset -gx all_proxy \"socks5h://127.0.0.1:");
        reveal_strlit("\"\nset -gx HTTP_PROXY $http_proxy\nset -gx HTTPS_PROXY $https_proxy\nset -gx ALL_PROXY $all_proxy\nset -q no_proxy; or set -gx no_proxy \"localhost,127.0.0.1,::1\"\nset -q NO_PROXY; or set -gx NO_PROXY $no_proxy\n");
        reveal_strlit("set -gx HTTP_PROXY $http_proxy\nset -gx HTTPS_PROXY $https_proxy\nset -gx ALL_PROXY $all_proxy\nset -q no_proxy; or set -gx no_proxy \"localhost,127.0.0.1,::1\"\nset -q NO_PROXY; or set -gx NO_PROXY $no_proxy\n");
        assert(bb =~= "\""@ + b1);
        assert(bb =~= "\"\n"@ + b3);
        assert(c =~= "\""@ + c2);
        assert(c =~= "\"\n"@ + c1);
        assert(d =~= "\"\n"@ + d1);
        assert(b == m + (a + h + bb + h + c + s + d) + t);
        lemma_proxy_lines(m, a, bb, b1, b3, c, c1, c2, d, d1, h, s, t);
    } else {
        let a = "\nexport http_proxy=\"http://127.0.0.1:"@;
        let bb = "\"\nexport https_proxy=\"http://127.0.0.1:"@;
        let b1 = "\nexport https_proxy=\"http://127.0.0.1:"@;
        let b3 = "export https_proxy=\"http://127.0.0.1:"@;
        let c = "\"\nexport all_proxy=\"socks5h://127.0.0.1:"@;
        let c1 = "export all_proxy=\"socks5h://127.0.0.1:"@;
        let c2 = "\nexport all_proxy=\"socks5h://127.0.0.1:"@;
        let d = "\"\nexport HTTP_PROXY=\"$http_proxy\"\nexport HTTPS_PROXY=\"$https_proxy\"\nexport ALL_PROXY=\"$all_proxy\"\nexport no_proxy=\"localhost,127.0.0.1,::1\"\nexport NO_PROXY=\"$no_proxy\"\n"@;
        let d1 = "export HTTP_PROXY=\"$http_proxy\"\nexport HTTPS_PROXY=\"$https_proxy\"\nexport ALL_PROXY=\"$all_proxy\"\nexport no_proxy=\"localhost,127.0.0.1,::1\"\nexport NO_PROXY=\"$no_proxy\"\n"@;
        reveal_strlit("\"\nexport https_proxy=\"http://127.0.0.1:");
        reveal_strlit("\nexport https_proxy=\"http://127.0.0.1:");
        reveal_strlit("export https_proxy=\"http://127.0.0.1:");
        reveal_strlit("\"\nexport all_proxy=\"socks5h://127.0.0.1:");
        reveal_strlit("export all_proxy=\"socks5h://127.0.0.1:");
        reveal_strlit("\nexport all_proxy=\"socks5h://127.0.0.1:");
        reveal_strlit("\"\nexport HTTP_PROXY=\"$http_proxy\"\nexport HTTPS_PROXY=\"$https_proxy\"\nexport ALL_PROXY=\"$all_proxy\"\nexport no_proxy=\"localhost,127.0.0.1,::1\"\nexport NO_PROXY=\"$no_proxy\"\n");
        reveal_strlit("export HTTP_PROXY=\"$http_proxy\"\nexport HTTPS_PROXY=\"$https_proxy\"\nexport ALL_PROXY=\"$all_proxy\"\nexport no_proxy=\"localhost,127.0.0.1,::1\"\nexport NO_PROXY=\"$no_proxy\"\n");
        assert(bb =~= "\""@ + b1);
        assert(bb =~= "\"\n"@ + b3);
        assert(c =~= "\""@ + c2);
        assert(c =~= "\"\n"@ + c1);
        assert(d =~= "\"\n"@ + d1);
        assert(b == m + (a + h + bb + h + c + s + d) + t);
        lemma_proxy_lines(m, a, bb, b1, b3, c, c1, c2, d, d1, h, s, t);
    }
}

} // verus!
