//! Start at login: the LaunchAgent property list and the commands around it.

use vstd::prelude::*;

use crate::detect::{command_output_or_empty, output_or_empty};
use crate::text::{
    chars_of, contains, lemma_contains_middle, string_of, string_views, trim, trim_chars,
};

verus! {

/// The XML form of one character.
pub open spec fn escape_char(c: char) -> Seq<char> {
    if c == '&' {
        "&amp;"@
    } else if c == '<' {
        "&lt;"@
    } else if c == '>' {
        "&gt;"@
    } else if c == '"' {
        "&quot;"@
    } else if c == '\'' {
        "&apos;"@
    } else {
        seq![c]
    }
}

/// Text with the five XML special characters replaced by their entities.
pub open spec fn xml_escaped(s: Seq<char>) -> Seq<char>
    decreases s.len(),
{
    if s.len() == 0 {
        seq![]
    } else {
        xml_escaped(s.drop_last()) + escape_char(s.last())
    }
}

/// Escapes text for an XML element.
pub fn xml_escape(value: &str) -> (r: String)
    ensures
        r@ == xml_escaped(value@),
{
    let chars = chars_of(value);
    let mut out = String::new();
    let mut i: usize = 0;
    while i < chars.len()
        invariant
            i <= chars@.len(),
            chars@ == value@,
            out@ == xml_escaped(chars@.take(i as int)),
        decreases chars@.len() - i,
    {
        let c = chars[i];
        if c == '&' {
            out.append("&amp;");
        } else if c == '<' {
            out.append("&lt;");
        } else if c == '>' {
            out.append("&gt;");
        } else if c == '"' {
            out.append("&quot;");
        } else if c == '\'' {
            out.append("&apos;");
        } else {
            let mut one: Vec<char> = Vec::new();
            one.push(c);
            out.append(string_of(&one).as_str());
            assert(one@ =~= seq![c]);
        }
        proof {
            assert(chars@.take(i + 1).drop_last() =~= chars@.take(i as int));
            assert(chars@.take(i + 1).last() == c);
        }
        i = i + 1;
    }
    assert(chars@.take(i as int) =~= chars@);
    out
}

/// A character that may not stand unescaped in XML text or attributes.
pub open spec fn is_markup(c: char) -> bool {
    c == '<' || c == '>' || c == '"' || c == '\''
}

/// Escaped text holds no `<`, `>`, `"` or `'`, whatever the input.
pub proof fn law_escaped_has_no_markup(s: Seq<char>)
    ensures
        forall|i: int| 0 <= i < xml_escaped(s).len() ==> !is_markup(#[trigger] xml_escaped(s)[i]),
    decreases s.len(),
{
    if s.len() > 0 {
        law_escaped_has_no_markup(s.drop_last());
        let a = xml_escaped(s.drop_last());
        let b = escape_char(s.last());
        reveal_strlit("&amp;");
        reveal_strlit("&lt;");
        reveal_strlit("&gt;");
        reveal_strlit("&quot;");
        reveal_strlit("&apos;");
        assert forall|i: int| 0 <= i < b.len() implies !is_markup(#[trigger] b[i]) by {}
        assert forall|i: int| 0 <= i < xml_escaped(s).len() implies !is_markup(
            #[trigger] xml_escaped(s)[i],
        ) by {
            if i < a.len() {
                assert(xml_escaped(s)[i] == a[i]);
            } else {
                assert(xml_escaped(s)[i] == b[i - a.len()]);
            }
        }
    }
}

pub open spec fn amp_entity() -> Seq<char> {
    seq!['&', 'a', 'm', 'p', ';']
}

pub open spec fn lt_entity() -> Seq<char> {
    seq!['&', 'l', 't', ';']
}

pub open spec fn gt_entity() -> Seq<char> {
    seq!['&', 'g', 't', ';']
}

pub open spec fn quot_entity() -> Seq<char> {
    seq!['&', 'q', 'u', 'o', 't', ';']
}

pub open spec fn apos_entity() -> Seq<char> {
    seq!['&', 'a', 'p', 'o', 's', ';']
}

/// `t` begins with `p`.
pub open spec fn starts_with(t: Seq<char>, p: Seq<char>) -> bool {
    p.len() <= t.len() && t.take(p.len() as int) == p
}

/// XML text with the five entities turned back into their characters, read
/// from the front; any other `&` stands for itself.
pub open spec fn xml_unescaped(t: Seq<char>) -> Seq<char>
    decreases t.len(),
{
    if t.len() == 0 {
        seq![]
    } else if starts_with(t, amp_entity()) {
        seq!['&'] + xml_unescaped(t.skip(5))
    } else if starts_with(t, lt_entity()) {
        seq!['<'] + xml_unescaped(t.skip(4))
    } else if starts_with(t, gt_entity()) {
        seq!['>'] + xml_unescaped(t.skip(4))
    } else if starts_with(t, quot_entity()) {
        seq!['"'] + xml_unescaped(t.skip(6))
    } else if starts_with(t, apos_entity()) {
        seq!['\''] + xml_unescaped(t.skip(6))
    } else {
        seq![t[0]] + xml_unescaped(t.drop_first())
    }
}

proof fn lemma_entities()
    ensures
        "&amp;"@ == amp_entity(),
        "&lt;"@ == lt_entity(),
        "&gt;"@ == gt_entity(),
        "&quot;"@ == quot_entity(),
        "&apos;"@ == apos_entity(),
{
    reveal_strlit("&amp;");
    reveal_strlit("&lt;");
    reveal_strlit("&gt;");
    reveal_strlit("&quot;");
    reveal_strlit("&apos;");
    assert("&amp;"@ =~= amp_entity());
    assert("&lt;"@ =~= lt_entity());
    assert("&gt;"@ =~= gt_entity());
    assert("&quot;"@ =~= quot_entity());
    assert("&apos;"@ =~= apos_entity());
}

proof fn lemma_escaped_concat(a: Seq<char>, b: Seq<char>)
    ensures
        xml_escaped(a + b) == xml_escaped(a) + xml_escaped(b),
    decreases b.len(),
{
    if b.len() == 0 {
        assert(a + b =~= a);
        assert(xml_escaped(a) + xml_escaped(b) =~= xml_escaped(a));
    } else {
        lemma_escaped_concat(a, b.drop_last());
        assert((a + b).drop_last() =~= a + b.drop_last());
        assert((a + b).last() == b.last());
        assert(xml_escaped(a) + xml_escaped(b) =~= xml_escaped(a) + xml_escaped(b.drop_last())
            + escape_char(b.last()));
    }
}

/// Unescaping escaped text gives the text back.
pub proof fn law_xml_round_trip(s: Seq<char>)
    ensures
        xml_unescaped(xml_escaped(s)) == s,
    decreases s.len(),
{
    if s.len() > 0 {
        let c = s[0];
        let r = s.drop_first();
        assert(s =~= seq![c] + r);
        lemma_escaped_concat(seq![c], r);
        assert(xml_escaped(seq![c]) =~= escape_char(c)) by {
            assert(seq![c].drop_last() =~= Seq::<char>::empty());
            assert(seq![c].last() == c);
            assert(xml_escaped(Seq::<char>::empty()) == Seq::<char>::empty());
            assert(Seq::<char>::empty() + escape_char(c) =~= escape_char(c));
        }
        law_xml_round_trip(r);
        lemma_entities();
        let e = escape_char(c);
        let t = e + xml_escaped(r);
        assert(t.skip(e.len() as int) =~= xml_escaped(r));
        assert(t.take(e.len() as int) =~= e);
        if c != '&' && c != '<' && c != '>' && c != '"' && c != '\'' {
            assert(t[0] == c);
            assert(t.drop_first() =~= xml_escaped(r));
            assert(!starts_with(t, amp_entity()) && !starts_with(t, lt_entity()) && !starts_with(
                t,
                gt_entity(),
            ) && !starts_with(t, quot_entity()) && !starts_with(t, apos_entity())) by {
                if starts_with(t, amp_entity()) {
                    assert(t.take(5)[0] == t[0]);
                }
                if starts_with(t, lt_entity()) {
                    assert(t.take(4)[0] == t[0]);
                }
                if starts_with(t, gt_entity()) {
                    assert(t.take(4)[0] == t[0]);
                }
                if starts_with(t, quot_entity()) {
                    assert(t.take(6)[0] == t[0]);
                }
                if starts_with(t, apos_entity()) {
                    assert(t.take(6)[0] == t[0]);
                }
            }
        } else {
            assert(t[1] == e[1] && t[2] == e[2]);
            if starts_with(t, amp_entity()) {
                assert(t.take(5)[1] == t[1] && t.take(5)[2] == t[2]);
            }
            if starts_with(t, lt_entity()) {
                assert(t.take(4)[1] == t[1]);
            }
            if starts_with(t, gt_entity()) {
                assert(t.take(4)[1] == t[1]);
            }
            if starts_with(t, quot_entity()) {
                assert(t.take(6)[1] == t[1]);
            }
        }
    }
}

/// `str::replace`: every occurrence of `p`, found from the left without
/// overlapping, replaced by `r`.
pub open spec fn replace_all(t: Seq<char>, p: Seq<char>, r: Seq<char>) -> Seq<char>
    decreases t.len(),
{
    if t.len() == 0 {
        seq![]
    } else if p.len() > 0 && starts_with(t, p) {
        r + replace_all(t.skip(p.len() as int), p, r)
    } else {
        seq![t[0]] + replace_all(t.drop_first(), p, r)
    }
}

/// Unescaping by replacement: `&lt;`, `&gt;`, `&quot;` and `&apos;` first,
/// then `&amp;`.
pub open spec fn xml_unescaped_by_replace(t: Seq<char>) -> Seq<char> {
    replace_all(
        replace_all(
            replace_all(
                replace_all(replace_all(t, lt_entity(), seq!['<']), gt_entity(), seq!['>']),
                quot_entity(),
                seq!['"'],
            ),
            apos_entity(),
            seq!['\''],
        ),
        amp_entity(),
        seq!['&'],
    )
}

/// The text made of the pieces that `f` gives for each character.
pub open spec fn flat(f: spec_fn(char) -> Seq<char>, s: Seq<char>) -> Seq<char>
    decreases s.len(),
{
    if s.len() == 0 {
        seq![]
    } else {
        f(s[0]) + flat(f, s.drop_first())
    }
}

/// Escaping with some of the entities already turned back: `<` from the
/// first `undone` of `<`, `>`, `"`, `'` stands for itself.
pub open spec fn partly_escaped(undone: int, c: char) -> Seq<char> {
    if (c == '<' && undone >= 1) || (c == '>' && undone >= 2) || (c == '"' && undone >= 3) || (c
        == '\'' && undone >= 4) || (c == '&' && undone >= 5) {
        seq![c]
    } else {
        escape_char(c)
    }
}

proof fn lemma_flat_escaped(s: Seq<char>)
    ensures
        xml_escaped(s) == flat(|c: char| partly_escaped(0, c), s),
    decreases s.len(),
{
    if s.len() > 0 {
        let c = s[0];
        let r = s.drop_first();
        assert(s =~= seq![c] + r);
        lemma_escaped_concat(seq![c], r);
        assert(seq![c].drop_last() =~= Seq::<char>::empty());
        assert(seq![c].last() == c);
        assert(Seq::<char>::empty() + escape_char(c) =~= escape_char(c));
        assert(xml_escaped(Seq::<char>::empty()) == Seq::<char>::empty());
        assert(xml_escaped(seq![c]) == escape_char(c));
        lemma_flat_escaped(r);
        assert(partly_escaped(0, c) == escape_char(c));
        assert(flat(|c: char| partly_escaped(0, c), s) == partly_escaped(0, c) + flat(
            |c: char| partly_escaped(0, c),
            r,
        ));
    }
}

proof fn lemma_flat_identity(s: Seq<char>)
    ensures
        flat(|c: char| partly_escaped(5, c), s) == s,
    decreases s.len(),
{
    if s.len() > 0 {
        lemma_flat_identity(s.drop_first());
        assert(s =~= seq![s[0]] + s.drop_first());
    }
}

proof fn lemma_replace_after_plain(a: Seq<char>, y: Seq<char>, p: Seq<char>, r: Seq<char>)
    requires
        p.len() > 0,
        p[0] == '&',
        forall|k: int| 0 <= k < a.len() ==> #[trigger] a[k] != '&',
    ensures
        replace_all(a + y, p, r) == a + replace_all(y, p, r),
    decreases a.len(),
{
    if a.len() > 0 {
        let t = a + y;
        if starts_with(t, p) {
            assert(t.take(p.len() as int)[0] == t[0]);
        }
        assert(t.drop_first() =~= a.drop_first() + y);
        lemma_replace_after_plain(a.drop_first(), y, p, r);
        assert(seq![t[0]] + (a.drop_first() + replace_all(y, p, r)) =~= a + replace_all(y, p, r));
    } else {
        assert(a + y =~= y);
        assert(a + replace_all(y, p, r) =~= replace_all(y, p, r));
    }
}

/// One replacement step undoes one more entity.
proof fn lemma_replace_stage(undone: int, p: Seq<char>, ch: char, s: Seq<char>)
    requires
        0 <= undone < 5,
        p == escape_char(ch),
        ch == if undone == 0 {
            '<'
        } else if undone == 1 {
            '>'
        } else if undone == 2 {
            '"'
        } else if undone == 3 {
            '\''
        } else {
            '&'
        },
    ensures
        replace_all(flat(|c: char| partly_escaped(undone, c), s), p, seq![ch]) == flat(
            |c: char| partly_escaped(undone + 1, c),
            s,
        ),
    decreases s.len(),
{
    lemma_entities();
    if s.len() > 0 {
        let c = s[0];
        let rest = s.drop_first();
        let x = partly_escaped(undone, c);
        let y = flat(|c: char| partly_escaped(undone, c), rest);
        let t = x + y;
        lemma_replace_stage(undone, p, ch, rest);
        assert(flat(|c: char| partly_escaped(undone, c), s) == t);
        if x == p {
            assert(t.take(p.len() as int) =~= p);
            assert(t.skip(p.len() as int) =~= y);
            assert(partly_escaped(undone + 1, c) == seq![ch]);
        } else if x.len() == 1 && x[0] != '&' {
            lemma_replace_after_plain(x, y, p, seq![ch]);
            assert(partly_escaped(undone + 1, c) == x);
        } else {
            assert(x[0] == '&');
            assert(partly_escaped(undone + 1, c) == x);
            assert(t[0] == x[0] && t[1] == x[1] && t[2] == x[2]);
            if starts_with(t, p) {
                assert(t.take(p.len() as int)[1] == t[1]);
                assert(t.take(p.len() as int)[2] == t[2]);
            }
            assert(!starts_with(t, p));
            let x1 = x.drop_first();
            assert(t.drop_first() =~= x1 + y);
            lemma_replace_after_plain(x1, y, p, seq![ch]);
            assert(seq![t[0]] + (x1 + replace_all(y, p, seq![ch])) =~= x + replace_all(
                y,
                p,
                seq![ch],
            ));
        }
    }
}

/// Unescaping by replacement, entities other than `&amp;` first, gives the
/// text that was escaped back.
pub proof fn law_xml_replace_round_trip(s: Seq<char>)
    ensures
        xml_unescaped_by_replace(xml_escaped(s)) == s,
{
    lemma_entities();
    lemma_flat_escaped(s);
    lemma_replace_stage(0, lt_entity(), '<', s);
    lemma_replace_stage(1, gt_entity(), '>', s);
    lemma_replace_stage(2, quot_entity(), '"', s);
    lemma_replace_stage(3, apos_entity(), '\'', s);
    lemma_replace_stage(4, amp_entity(), '&', s);
    lemma_flat_identity(s);
}

/// Different texts escape to different texts.
pub proof fn law_xml_escape_injective(a: Seq<char>, b: Seq<char>)
    requires
        xml_escaped(a) == xml_escaped(b),
    ensures
        a == b,
{
    law_xml_round_trip(a);
    law_xml_round_trip(b);
}

/// The LaunchAgent label.
pub open spec fn launch_agent_id() -> Seq<char> {
    "local.astrill-split-proxy"@
}

pub open spec fn plist_head() -> Seq<char> {
    "<?xml version=\"1.0\" encoding=\"UTF-8\"?>\n<!DOCTYPE plist PUBLIC \"-//Apple//DTD PLIST 1.0//EN\" \"http://www.apple.com/DTDs/PropertyList-1.0.dtd\">\n<plist version=\"1.0\">\n<dict>\n  <key>Label</key>\n  <string>"@
}

pub open spec fn plist_middle() -> Seq<char> {
    "</string>\n  <key>ProgramArguments</key>\n  <array>\n    <string>"@
}

pub open spec fn plist_tail() -> Seq<char> {
    "</string>\n    <string>--background</string>\n  </array>\n  <key>RunAtLoad</key>\n  <true/>\n  <key>KeepAlive</key>\n  <false/>\n</dict>\n</plist>\n"@
}

/// The LaunchAgent that runs `exe --background` at login, without keeping
/// it alive.
pub open spec fn login_plist_text(exe: Seq<char>) -> Seq<char> {
    plist_head() + xml_escaped(launch_agent_id()) + plist_middle() + xml_escaped(exe) + plist_tail()
}

/// The LaunchAgent property list for the application's executable.
pub fn login_item_plist(exe: &str) -> (r: String)
    ensures
        r@ == login_plist_text(exe@),
{
    let mut out = String::from_str(
        "<?xml version=\"1.0\" encoding=\"UTF-8\"?>\n<!DOCTYPE plist PUBLIC \"-//Apple//DTD PLIST 1.0//EN\" \"http://www.apple.com/DTDs/PropertyList-1.0.dtd\">\n<plist version=\"1.0\">\n<dict>\n  <key>Label</key>\n  <string>",
    );
    let id = xml_escape("local.astrill-split-proxy");
    out.append(id.as_str());
    out.append("</string>\n  <key>ProgramArguments</key>\n  <array>\n    <string>");
    let e = xml_escape(exe);
    out.append(e.as_str());
    out.append(
        "</string>\n    <string>--background</string>\n  </array>\n  <key>RunAtLoad</key>\n  <true/>\n  <key>KeepAlive</key>\n  <false/>\n</dict>\n</plist>\n",
    );
    out
}

/// Different executables give different LaunchAgent property lists.
pub proof fn law_plist_injective(exe1: Seq<char>, exe2: Seq<char>)
    requires
        login_plist_text(exe1) == login_plist_text(exe2),
    ensures
        exe1 == exe2,
{
    let h = plist_head() + xml_escaped(launch_agent_id()) + plist_middle();
    let x1 = xml_escaped(exe1);
    let x2 = xml_escaped(exe2);
    let t = plist_tail();
    assert(login_plist_text(exe1) =~= h + x1 + t);
    assert(login_plist_text(exe2) =~= h + x2 + t);
    assert(x1.len() == x2.len());
    assert(x1 =~= (h + x1 + t).subrange(h.len() as int, (h.len() + x1.len()) as int));
    assert(x2 =~= (h + x2 + t).subrange(h.len() as int, (h.len() + x2.len()) as int));
    law_xml_escape_injective(exe1, exe2);
}

/// How many times `p` occurs in `s`, counting every starting position.
pub open spec fn occurrences(s: Seq<char>, p: Seq<char>) -> nat
    decreases s.len(),
{
    if s.len() == 0 {
        0
    } else {
        let here: nat = if p.len() > 0 && p.len() <= s.len() && s.subrange(0, p.len() as int) == p {
            1
        } else {
            0
        };
        here + occurrences(s.drop_first(), p)
    }
}

/// An XML tag: `<`, then text holding neither `<` nor `>`, then `>`.
pub open spec fn is_tag(p: Seq<char>) -> bool {
    &&& p.len() >= 2
    &&& p[0] == '<'
    &&& p.last() == '>'
    &&& forall|i: int| 0 < i < p.len() - 1 ==> #[trigger] p[i] != '<' && p[i] != '>'
}

/// Text without `<` does not add to the occurrences of a tag.
proof fn lemma_occurrences_plain_prefix(x: Seq<char>, t: Seq<char>, p: Seq<char>)
    requires
        is_tag(p),
        forall|i: int| 0 <= i < x.len() ==> #[trigger] x[i] != '<',
    ensures
        occurrences(x + t, p) == occurrences(t, p),
    decreases x.len(),
{
    if x.len() > 0 {
        let s = x + t;
        assert(s[0] == x[0]);
        if p.len() <= s.len() && s.subrange(0, p.len() as int) == p {
            assert(s.subrange(0, p.len() as int)[0] == s[0]);
        }
        assert(s.drop_first() =~= x.drop_first() + t);
        lemma_occurrences_plain_prefix(x.drop_first(), t, p);
    } else {
        assert(x + t =~= t);
    }
}

/// A tag occurs in `h + x + t` as often as in `h` and `t` together, when `h`
/// is empty or ends a tag and `x` holds neither `<` nor `>`.
proof fn lemma_occurrences_split(h: Seq<char>, x: Seq<char>, t: Seq<char>, p: Seq<char>)
    requires
        is_tag(p),
        h.len() == 0 || h.last() == '>',
        forall|i: int| 0 <= i < x.len() ==> #[trigger] x[i] != '<' && x[i] != '>',
    ensures
        occurrences(h + x + t, p) == occurrences(h, p) + occurrences(t, p),
    decreases h.len(),
{
    if h.len() == 0 {
        assert(h + x + t =~= x + t);
        lemma_occurrences_plain_prefix(x, t, p);
    } else {
        let s = h + x + t;
        let n = p.len() as int;
        assert(s.drop_first() =~= h.drop_first() + x + t);
        lemma_occurrences_split(h.drop_first(), x, t, p);
        if n <= h.len() {
            assert(s.subrange(0, n) =~= h.subrange(0, n));
        } else if n <= s.len() && s.subrange(0, n) == p {
            let k = h.len() - 1;
            assert(s.subrange(0, n)[k] == h[k]);
            assert(p[k] == '>');
            assert(false);
        }
    }
}

/// Text holding neither `<` nor `>`.
pub open spec fn is_plain(c: Seq<char>) -> bool {
    forall|i: int| 0 <= i < c.len() ==> #[trigger] c[i] != '<' && c[i] != '>'
}

/// How many of the pieces are the text `p`.
pub open spec fn pieces_equal_to(cs: Seq<Seq<char>>, p: Seq<char>) -> nat
    decreases cs.len(),
{
    if cs.len() == 0 {
        0
    } else {
        pieces_equal_to(cs.drop_last(), p) + if cs.last() == p {
            1nat
        } else {
            0nat
        }
    }
}

/// Pieces that are each a tag, or plain text that follows a tag or starts.
pub open spec fn tags_and_text(cs: Seq<Seq<char>>) -> bool {
    forall|i: int|
        #![trigger cs[i]]
        0 <= i < cs.len() ==> cs[i].len() > 0 && (is_tag(cs[i]) || (is_plain(cs[i]) && (i == 0
            || is_tag(cs[i - 1]))))
}

/// A tag occurs in `a + b` as often as in `a` and in `b`, when the two meet
/// at the end or the start of a tag.
proof fn lemma_occurrences_concat(a: Seq<char>, b: Seq<char>, p: Seq<char>)
    requires
        is_tag(p),
        a.len() == 0 || b.len() == 0 || a.last() == '>' || b[0] == '<',
    ensures
        occurrences(a + b, p) == occurrences(a, p) + occurrences(b, p),
    decreases a.len(),
{
    if a.len() == 0 {
        assert(a + b =~= b);
    } else if b.len() == 0 {
        assert(a + b =~= a);
    } else if a.last() == '>' {
        lemma_occurrences_split(a, Seq::empty(), b, p);
        assert(a + Seq::<char>::empty() + b =~= a + b);
    } else {
        let s = a + b;
        let n = p.len() as int;
        assert(s.drop_first() =~= a.drop_first() + b);
        lemma_occurrences_concat(a.drop_first(), b, p);
        if n <= a.len() {
            assert(s.subrange(0, n) =~= a.subrange(0, n));
        } else if n <= s.len() && s.subrange(0, n) == p {
            let k = a.len() as int;
            assert(s.subrange(0, n)[k] == b[0]);
            assert(p[k] == '<');
            assert(false);
        }
    }
}

/// A tag occurs in another tag only when the two are the same.
proof fn lemma_occurrences_in_tag(c: Seq<char>, p: Seq<char>)
    requires
        is_tag(c),
        is_tag(p),
    ensures
        occurrences(c, p) == if c == p {
            1nat
        } else {
            0nat
        },
{
    let n = p.len() as int;
    let rest = c.drop_first();
    assert forall|i: int| 0 <= i < rest.len() implies #[trigger] rest[i] != '<' by {
        assert(rest[i] == c[i + 1]);
    }
    lemma_occurrences_plain_prefix(rest, Seq::empty(), p);
    assert(rest + Seq::<char>::empty() =~= rest);
    if c == p {
        assert(c.subrange(0, n) =~= c);
    } else if n <= c.len() && c.subrange(0, n) == p {
        if n < c.len() {
            assert(c.subrange(0, n)[n - 1] == c[n - 1]);
            assert(false);
        } else {
            assert(c.subrange(0, n) =~= c);
        }
    }
}

/// Plain text holds no tag.
proof fn lemma_occurrences_in_plain(c: Seq<char>, p: Seq<char>)
    requires
        is_plain(c),
        is_tag(p),
    ensures
        occurrences(c, p) == 0,
{
    assert forall|i: int| 0 <= i < c.len() implies #[trigger] c[i] != '<' by {}
    lemma_occurrences_plain_prefix(c, Seq::empty(), p);
    assert(c + Seq::<char>::empty() =~= c);
}

/// In text made of tags and plain text, a tag occurs as often as it stands
/// as a piece.
proof fn lemma_occurrences_pieces(cs: Seq<Seq<char>>, p: Seq<char>)
    requires
        is_tag(p),
        tags_and_text(cs),
    ensures
        occurrences(cs.flatten_alt(), p) == pieces_equal_to(cs, p),
    decreases cs.len(),
{
    if cs.len() > 0 {
        let front = cs.drop_last();
        let c = cs.last();
        assert(tags_and_text(front)) by {
            assert forall|i: int| 0 <= i < front.len() implies #[trigger] front[i].len() > 0 && (
            is_tag(front[i]) || (is_plain(front[i]) && (i == 0 || is_tag(front[i - 1])))) by {
                assert(front[i] == cs[i]);
                if i > 0 {
                    assert(front[i - 1] == cs[i - 1]);
                }
            }
        }
        lemma_occurrences_pieces(front, p);
        assert(cs[cs.len() - 1] == c);
        if front.len() > 0 {
            let f = front.flatten_alt();
            assert(f == front.drop_last().flatten_alt() + front.last());
            assert(front.last() == cs[cs.len() - 2]);
            assert(f.last() == front.last().last());
        }
        lemma_occurrences_concat(front.flatten_alt(), c, p);
        if is_tag(c) {
            lemma_occurrences_in_tag(c, p);
        } else {
            lemma_occurrences_in_plain(c, p);
        }
    }
}

/// The executable cannot add elements to the LaunchAgent property list: every
/// tag occurs in it as often as in the property list of an empty path.
pub proof fn law_plist_tags_fixed(exe: Seq<char>, tag: Seq<char>)
    requires
        is_tag(tag),
    ensures
        occurrences(login_plist_text(exe), tag) == occurrences(login_plist_text(Seq::empty()), tag),
{
    let h = plist_head() + xml_escaped(launch_agent_id()) + plist_middle();
    let t = plist_tail();
    reveal_strlit("</string>\n  <key>ProgramArguments</key>\n  <array>\n    <string>");
    assert(h.last() == plist_middle().last());
    law_escaped_has_no_markup(exe);
    law_escaped_has_no_markup(Seq::empty());
    let x = xml_escaped(exe);
    let e = xml_escaped(Seq::<char>::empty());
    assert(forall|i: int| 0 <= i < x.len() ==> #[trigger] x[i] != '<' && x[i] != '>') by {
        assert forall|i: int| 0 <= i < x.len() implies #[trigger] x[i] != '<' && x[i] != '>' by {
            assert(!is_markup(x[i]));
        }
    }
    assert(forall|i: int| 0 <= i < e.len() ==> #[trigger] e[i] != '<' && e[i] != '>') by {
        assert forall|i: int| 0 <= i < e.len() implies #[trigger] e[i] != '<' && e[i] != '>' by {
            assert(!is_markup(e[i]));
        }
    }
    assert(login_plist_text(exe) =~= h + x + t);
    assert(login_plist_text(Seq::empty()) =~= h + e + t);
    lemma_occurrences_split(h, x, t, tag);
    lemma_occurrences_split(h, e, t, tag);
}

/// The user id printed by `id -u`, trimmed; empty when it could not be run.
pub fn user_id(id_output: Result<String, String>) -> (r: String)
    ensures
        r@ == trim(output_or_empty(id_output)),
{
    let out = command_output_or_empty(id_output);
    let chars = chars_of(out.as_str());
    string_of(&trim_chars(&chars))
}

/// The time printed by `date +%H:%M:%S`, trimmed; empty when it could not
/// be run.
pub fn chrono_like_now(date_output: Result<String, String>) -> (r: String)
    ensures
        r@ == trim(output_or_empty(date_output)),
{
    let out = command_output_or_empty(date_output);
    let chars = chars_of(out.as_str());
    string_of(&trim_chars(&chars))
}

/// The `launchctl` arguments that unload the LaunchAgent from the user's
/// GUI session; none when the user id is unknown.
pub fn launchctl_bootout_args(uid: &str, plist_path: &str) -> (r: Option<Vec<String>>)
    ensures
        match r {
            None => uid@.len() == 0,
            Some(args) => uid@.len() > 0 && string_views(args@) == seq![
                "bootout"@,
                "gui/"@ + uid@,
                plist_path@,
            ],
        },
{
    let u = chars_of(uid);
    if u.len() == 0 {
        return None;
    }
    let mut domain = String::from_str("gui/");
    domain.append(uid);
    let mut args: Vec<String> = Vec::new();
    args.push(String::from_str("bootout"));
    args.push(domain);
    args.push(String::from_str(plist_path));
    assert(string_views(args@) =~= seq!["bootout"@, "gui/"@ + uid@, plist_path@]);
    Some(args)
}


/// The head of the property list, up to the label.
proof fn lemma_plist_head_pieces()
    ensures
        plist_head().last() == '>',
        occurrences(plist_head(), "<string>"@) == 1,
        occurrences(plist_head(), "</plist>"@) == 0,
{
    reveal_strlit("<?xml version=\"1.0\" encoding=\"UTF-8\"?>\n<!DOCTYPE plist PUBLIC \"-//Apple//DTD PLIST 1.0//EN\" \"http://www.apple.com/DTDs/PropertyList-1.0.dtd\">\n<plist version=\"1.0\">\n<dict>\n  <key>Label</key>\n  <string>");
    reveal_strlit("<?xml version=\"1.0\" encoding=\"UTF-8\"?>");
    reveal_strlit("\n");
    reveal_strlit("<!DOCTYPE plist PUBLIC \"-//Apple//DTD PLIST 1.0//EN\" \"http://www.apple.com/DTDs/PropertyList-1.0.dtd\">");
    reveal_strlit("<plist version=\"1.0\">");
    reveal_strlit("<dict>");
    reveal_strlit("\n  ");
    reveal_strlit("<key>");
    reveal_strlit("Label");
    reveal_strlit("</key>");
    reveal_strlit("<string>");
    reveal_strlit("</plist>");
    let cs = seq![
        "<?xml version=\"1.0\" encoding=\"UTF-8\"?>"@,
        "\n"@,
        "<!DOCTYPE plist PUBLIC \"-//Apple//DTD PLIST 1.0//EN\" \"http://www.apple.com/DTDs/PropertyList-1.0.dtd\">"@,
        "\n"@,
        "<plist version=\"1.0\">"@,
        "\n"@,
        "<dict>"@,
        "\n  "@,
        "<key>"@,
        "Label"@,
        "</key>"@,
        "\n  "@,
        "<string>"@,
    ];
    reveal_with_fuel(Seq::flatten_alt, 14);
    assert(cs.flatten_alt() =~= plist_head());
    assert(tags_and_text(cs));
    lemma_occurrences_pieces(cs, "<string>"@);
    lemma_occurrences_pieces(cs, "</plist>"@);
    assert("<string>"@[1] != "</plist>"@[1]);
    reveal_with_fuel(pieces_equal_to, 14);
}

/// The part between the label and the executable.
proof fn lemma_plist_middle_pieces()
    ensures
        plist_middle().last() == '>',
        occurrences(plist_middle(), "<string>"@) == 1,
        occurrences(plist_middle(), "</plist>"@) == 0,
{
    reveal_strlit("</string>\n  <key>ProgramArguments</key>\n  <array>\n    <string>");
    reveal_strlit("</string>");
    reveal_strlit("\n  ");
    reveal_strlit("<key>");
    reveal_strlit("ProgramArguments");
    reveal_strlit("</key>");
    reveal_strlit("<array>");
    reveal_strlit("\n    ");
    reveal_strlit("<string>");
    reveal_strlit("</plist>");
    let cs = seq![
        "</string>"@,
        "\n  "@,
        "<key>"@,
        "ProgramArguments"@,
        "</key>"@,
        "\n  "@,
        "<array>"@,
        "\n    "@,
        "<string>"@,
    ];
    reveal_with_fuel(Seq::flatten_alt, 10);
    assert(cs.flatten_alt() =~= plist_middle());
    assert(tags_and_text(cs));
    lemma_occurrences_pieces(cs, "<string>"@);
    lemma_occurrences_pieces(cs, "</plist>"@);
    assert("<string>"@[1] != "</plist>"@[1]);
    reveal_with_fuel(pieces_equal_to, 10);
}

/// The part after the executable.
proof fn lemma_plist_tail_pieces()
    ensures
        plist_tail()[0] == '<',
        occurrences(plist_tail(), "<string>"@) == 1,
        occurrences(plist_tail(), "</plist>"@) == 1,
{
    reveal_strlit("</string>\n    <string>--background</string>\n  </array>\n  <key>RunAtLoad</key>\n  <true/>\n  <key>KeepAlive</key>\n  <false/>\n</dict>\n</plist>\n");
    reveal_strlit("</string>");
    reveal_strlit("\n    ");
    reveal_strlit("<string>");
    reveal_strlit("--background");
    reveal_strlit("\n  ");
    reveal_strlit("</array>");
    reveal_strlit("<key>");
    reveal_strlit("RunAtLoad");
    reveal_strlit("</key>");
    reveal_strlit("<true/>");
    reveal_strlit("KeepAlive");
    reveal_strlit("<false/>");
    reveal_strlit("\n");
    reveal_strlit("</dict>");
    reveal_strlit("</plist>");
    let cs = seq![
        "</string>"@,
        "\n    "@,
        "<string>"@,
        "--background"@,
        "</string>"@,
        "\n  "@,
        "</array>"@,
        "\n  "@,
        "<key>"@,
        "RunAtLoad"@,
        "</key>"@,
        "\n  "@,
        "<true/>"@,
        "\n  "@,
        "<key>"@,
        "KeepAlive"@,
        "</key>"@,
        "\n  "@,
        "<false/>"@,
        "\n"@,
        "</dict>"@,
        "\n"@,
        "</plist>"@,
        "\n"@,
    ];
    reveal_with_fuel(Seq::flatten_alt, 25);
    assert(cs.flatten_alt() =~= plist_tail());
    assert(tags_and_text(cs));
    lemma_occurrences_pieces(cs, "<string>"@);
    lemma_occurrences_pieces(cs, "</plist>"@);
    assert("<string>"@[1] != "</plist>"@[1]);
    assert("</array>"@[2] != "</plist>"@[2]);
    assert("</array>"@[1] != "<string>"@[1]);
    assert("<false/>"@[1] != "<string>"@[1]);
    assert("<false/>"@[1] != "</plist>"@[1]);
    reveal_with_fuel(pieces_equal_to, 25);
}

/// Whatever the executable's path, the LaunchAgent property list holds three
/// `<string>` elements and one closing `</plist>`: the path cannot add or end
/// elements.
pub proof fn law_plist_element_counts(exe: Seq<char>)
    ensures
        occurrences(login_plist_text(exe), "<string>"@) == 3,
        occurrences(login_plist_text(exe), "</plist>"@) == 1,
{
    reveal_strlit("<string>");
    reveal_strlit("</plist>");
    assert(is_tag("<string>"@));
    assert(is_tag("</plist>"@));
    lemma_plist_head_pieces();
    lemma_plist_middle_pieces();
    lemma_plist_tail_pieces();
    law_escaped_has_no_markup(exe);
    law_escaped_has_no_markup(launch_agent_id());
    let id = xml_escaped(launch_agent_id());
    let x = xml_escaped(exe);
    assert(forall|i: int| 0 <= i < x.len() ==> #[trigger] x[i] != '<' && x[i] != '>') by {
        assert forall|i: int| 0 <= i < x.len() implies #[trigger] x[i] != '<' && x[i] != '>' by {
            assert(!is_markup(x[i]));
        }
    }
    assert(forall|i: int| 0 <= i < id.len() ==> #[trigger] id[i] != '<' && id[i] != '>') by {
        assert forall|i: int| 0 <= i < id.len() implies #[trigger] id[i] != '<' && id[i] != '>' by {
            assert(!is_markup(id[i]));
        }
    }
    let h = plist_head() + id + plist_middle();
    assert(h.last() == plist_middle().last());
    assert(login_plist_text(exe) =~= h + x + plist_tail());
    lemma_occurrences_split(h, x, plist_tail(), "<string>"@);
    lemma_occurrences_split(h, x, plist_tail(), "</plist>"@);
    lemma_occurrences_split(plist_head(), id, plist_middle(), "<string>"@);
    lemma_occurrences_split(plist_head(), id, plist_middle(), "</plist>"@);
}

/// The LaunchAgent starts the application at login and does not keep it
/// alive: `<key>RunAtLoad</key>` is followed by `<true/>` and
/// `<key>KeepAlive</key>` by `<false/>`, whatever the executable.
pub proof fn law_plist_runs_at_load(exe: Seq<char>)
    ensures
        contains(login_plist_text(exe), "<key>RunAtLoad</key>\n  <true/>\n"@),
        contains(login_plist_text(exe), "<key>KeepAlive</key>\n  <false/>\n"@),
{
    let before = "</string>\n    <string>--background</string>\n  </array>\n  "@;
    let run = "<key>RunAtLoad</key>\n  <true/>\n"@;
    let between = "  "@;
    let keep = "<key>KeepAlive</key>\n  <false/>\n"@;
    let after = "</dict>\n</plist>\n"@;
    reveal_strlit("</string>\n    <string>--background</string>\n  </array>\n  <key>RunAtLoad</key>\n  <true/>\n  <key>KeepAlive</key>\n  <false/>\n</dict>\n</plist>\n");
    reveal_strlit("</string>\n    <string>--background</string>\n  </array>\n  ");
    reveal_strlit("<key>RunAtLoad</key>\n  <true/>\n");
    reveal_strlit("  ");
    reveal_strlit("<key>KeepAlive</key>\n  <false/>\n");
    reveal_strlit("</dict>\n</plist>\n");
    assert(plist_tail() =~= before + run + between + keep + after);
    let h = plist_head() + xml_escaped(launch_agent_id()) + plist_middle() + xml_escaped(exe);
    assert(login_plist_text(exe) =~= (h + before) + run + (between + keep + after));
    assert(login_plist_text(exe) =~= (h + before + run + between) + keep + after);
    lemma_contains_middle(h + before, run, between + keep + after);
    lemma_contains_middle(h + before + run + between, keep, after);
}

} // verus!
