//! Character-level text operations with specifications that follow std's
//! `str` semantics (Unicode whitespace, `lines`, `find`, `trim`).

use vstd::prelude::*;

verus! {

/// Unicode `White_Space`, the set that `char::is_whitespace` tests.
pub open spec fn is_ws(c: char) -> bool {
    let u = c as u32;
    ||| (0x9 <= u && u <= 0xd)
    ||| u == 0x20
    ||| u == 0x85
    ||| u == 0xa0
    ||| u == 0x1680
    ||| (0x2000 <= u && u <= 0x200a)
    ||| u == 0x2028
    ||| u == 0x2029
    ||| u == 0x202f
    ||| u == 0x205f
    ||| u == 0x3000
}

pub fn is_ws_char(c: char) -> (r: bool)
    ensures
        r == is_ws(c),
{
    let u = c as u32;
    (0x9 <= u && u <= 0xd) || u == 0x20 || u == 0x85 || u == 0xa0 || u == 0x1680 || (0x2000 <= u
        && u <= 0x200a) || u == 0x2028 || u == 0x2029 || u == 0x202f || u == 0x205f || u == 0x3000
}

/// The characters of a string slice, in order.
pub fn chars_of(s: &str) -> (v: Vec<char>)
    ensures
        v@ == s@,
{
    let mut v: Vec<char> = Vec::new();
    for c in it: s.chars()
        invariant
            v@ == it.seq().take(it.index() as int),
    {
        v.push(c);
    }
    v
}

/// `String::push`: appends one character.
#[verifier::external_body]
fn push_char(s: &mut String, c: char)
    ensures
        final(s)@ == old(s)@.push(c),
{
    s.push(c);
}

/// A string holding the given characters.
pub fn string_of(v: &[char]) -> (s: String)
    ensures
        s@ == v@,
{
    let mut s = String::new();
    let mut i: usize = 0;
    while i < v.len()
        invariant
            i <= v@.len(),
            s@ == v@.take(i as int),
        decreases v@.len() - i,
    {
        push_char(&mut s, v[i]);
        i = i + 1;
        assert(s@ =~= v@.take(i as int));
    }
    assert(v@.take(i as int) =~= v@);
    s
}


/// Number of leading whitespace characters.
pub open spec fn lead_ws(s: Seq<char>) -> nat
    decreases s.len(),
{
    if s.len() > 0 && is_ws(s[0]) {
        1 + lead_ws(s.drop_first())
    } else {
        0
    }
}

/// Number of trailing whitespace characters.
pub open spec fn trail_ws(s: Seq<char>) -> nat
    decreases s.len(),
{
    if s.len() > 0 && is_ws(s.last()) {
        1 + trail_ws(s.drop_last())
    } else {
        0
    }
}

/// `str::trim_start`.
pub open spec fn trim_start(s: Seq<char>) -> Seq<char> {
    s.skip(lead_ws(s) as int)
}

/// `str::trim_end`.
pub open spec fn trim_end(s: Seq<char>) -> Seq<char> {
    s.take(s.len() - trail_ws(s))
}

/// `str::trim`.
pub open spec fn trim(s: Seq<char>) -> Seq<char> {
    trim_end(trim_start(s))
}

pub proof fn lemma_lead_ws_bound(s: Seq<char>)
    ensures
        lead_ws(s) <= s.len(),
        forall|i: int| 0 <= i < lead_ws(s) ==> is_ws(#[trigger] s[i]),
        lead_ws(s) < s.len() ==> !is_ws(s[lead_ws(s) as int]),
    decreases s.len(),
{
    if s.len() > 0 && is_ws(s[0]) {
        lemma_lead_ws_bound(s.drop_first());
        assert forall|i: int| 0 <= i < lead_ws(s) implies is_ws(#[trigger] s[i]) by {
            if i > 0 {
                assert(s[i] == s.drop_first()[i - 1]);
            }
        }
    }
}

/// The leading-whitespace count is the first index that is not whitespace.
pub proof fn lemma_lead_ws_is(s: Seq<char>, k: int)
    requires
        0 <= k <= s.len(),
        forall|i: int| 0 <= i < k ==> is_ws(#[trigger] s[i]),
        k == s.len() || !is_ws(s[k]),
    ensures
        lead_ws(s) == k,
    decreases k,
{
    if k > 0 {
        let t = s.drop_first();
        assert forall|i: int| 0 <= i < k - 1 implies is_ws(#[trigger] t[i]) by {
            assert(t[i] == s[i + 1]);
        }
        if k < s.len() {
            assert(t[k - 1] == s[k]);
        }
        lemma_lead_ws_is(t, k - 1);
    } else {
        assert(s.len() == 0 || !is_ws(s[0]));
    }
}

pub proof fn lemma_trail_ws_bound(s: Seq<char>)
    ensures
        trail_ws(s) <= s.len(),
        forall|i: int| s.len() - trail_ws(s) <= i < s.len() ==> is_ws(#[trigger] s[i]),
        trail_ws(s) < s.len() ==> !is_ws(s[s.len() - trail_ws(s) - 1]),
    decreases s.len(),
{
    if s.len() > 0 && is_ws(s.last()) {
        lemma_trail_ws_bound(s.drop_last());
        assert forall|i: int| s.len() - trail_ws(s) <= i < s.len() implies is_ws(#[trigger] s[i]) by {
            if i < s.len() - 1 {
                assert(s[i] == s.drop_last()[i]);
            }
        }
        if trail_ws(s) < s.len() {
            assert(s[s.len() - trail_ws(s) - 1] == s.drop_last()[s.drop_last().len() - trail_ws(
                s.drop_last(),
            ) - 1]);
        }
    }
}

/// The trailing-whitespace count is the distance from the last non-whitespace character to the end.
pub proof fn lemma_trail_ws_is(s: Seq<char>, k: int)
    requires
        0 <= k <= s.len(),
        forall|i: int| s.len() - k <= i < s.len() ==> is_ws(#[trigger] s[i]),
        k == s.len() || !is_ws(s[s.len() - k - 1]),
    ensures
        trail_ws(s) == k,
    decreases k,
{
    if k > 0 {
        let t = s.drop_last();
        assert forall|i: int| t.len() - (k - 1) <= i < t.len() implies is_ws(#[trigger] t[i]) by {
            assert(t[i] == s[i]);
        }
        if k < s.len() {
            assert(t[t.len() - (k - 1) - 1] == s[s.len() - k - 1]);
        }
        assert(is_ws(s[s.len() - 1]));
        lemma_trail_ws_is(t, k - 1);
    } else {
        assert(s.len() == 0 || !is_ws(s.last()));
    }
}

/// Index of the first character that is not whitespace.
pub fn lead_ws_len(s: &[char]) -> (k: usize)
    ensures
        k == lead_ws(s@),
{
    let mut i: usize = 0;
    while i < s.len() && is_ws_char(s[i])
        invariant
            i <= s@.len(),
            forall|j: int| 0 <= j < i ==> is_ws(#[trigger] s@[j]),
        decreases s@.len() - i,
    {
        i = i + 1;
    }
    proof {
        lemma_lead_ws_is(s@, i as int);
    }
    i
}

/// Length that remains once trailing whitespace is removed.
pub fn trim_end_len(s: &[char]) -> (k: usize)
    ensures
        k == s@.len() - trail_ws(s@),
        k <= s@.len(),
{
    let mut i: usize = s.len();
    while i > 0 && is_ws_char(s[i - 1])
        invariant
            i <= s@.len(),
            forall|j: int| i <= j < s@.len() ==> is_ws(#[trigger] s@[j]),
        decreases i,
    {
        i = i - 1;
    }
    proof {
        lemma_trail_ws_is(s@, s@.len() - i);
    }
    i
}

/// The characters `s[from..to]`.
pub fn sub_chars(s: &[char], from: usize, to: usize) -> (r: Vec<char>)
    requires
        from <= to <= s@.len(),
    ensures
        r@ == s@.subrange(from as int, to as int),
{
    let mut r: Vec<char> = Vec::new();
    let mut i = from;
    while i < to
        invariant
            from <= i <= to <= s@.len(),
            r@ == s@.subrange(from as int, i as int),
        decreases to - i,
    {
        r.push(s[i]);
        i = i + 1;
        assert(r@ =~= s@.subrange(from as int, i as int));
    }
    r
}

/// `str::trim_start` on characters.
pub fn trim_start_chars(s: &[char]) -> (r: Vec<char>)
    ensures
        r@ == trim_start(s@),
{
    let k = lead_ws_len(s);
    proof {
        lemma_lead_ws_bound(s@);
    }
    sub_chars(s, k, s.len())
}

/// `str::trim_end` on characters.
pub fn trim_end_chars(s: &[char]) -> (r: Vec<char>)
    ensures
        r@ == trim_end(s@),
{
    let k = trim_end_len(s);
    sub_chars(s, 0, k)
}

/// `str::trim` on characters.
pub fn trim_chars(s: &[char]) -> (r: Vec<char>)
    ensures
        r@ == trim(s@),
{
    let t = trim_start_chars(s);
    trim_end_chars(&t)
}


/// `n` occurs in `h` starting at index `i`.
pub open spec fn match_at(h: Seq<char>, n: Seq<char>, i: int) -> bool {
    0 <= i && i + n.len() <= h.len() && h.subrange(i, i + n.len()) == n
}

/// First index at or after `i` where `n` occurs in `h`.
pub open spec fn find_from(h: Seq<char>, n: Seq<char>, i: int) -> Option<int>
    decreases h.len() + 1 - i,
{
    if i < 0 || i + n.len() > h.len() {
        None
    } else if match_at(h, n, i) {
        Some(i)
    } else {
        find_from(h, n, i + 1)
    }
}

/// `str::find` with a string pattern, counted in characters.
pub open spec fn find(h: Seq<char>, n: Seq<char>) -> Option<int> {
    find_from(h, n, 0)
}

/// `str::contains` with a string pattern.
pub open spec fn contains(h: Seq<char>, n: Seq<char>) -> bool {
    find(h, n) is Some
}

pub proof fn lemma_find_from(h: Seq<char>, n: Seq<char>, i: int)
    requires
        0 <= i,
    ensures
        find_from(h, n, i) matches Some(k) ==> i <= k && match_at(h, n, k) && forall|j: int|
            i <= j < k ==> !#[trigger] match_at(h, n, j),
        find_from(h, n, i) is None ==> forall|j: int| i <= j ==> !#[trigger] match_at(h, n, j),
    decreases h.len() + 1 - i,
{
    if i + n.len() > h.len() {
    } else if match_at(h, n, i) {
    } else {
        lemma_find_from(h, n, i + 1);
    }
}

/// `find` gives the first occurrence, and `None` exactly when there is none.
pub proof fn lemma_find(h: Seq<char>, n: Seq<char>)
    ensures
        find(h, n) matches Some(k) ==> match_at(h, n, k) && forall|j: int|
            0 <= j < k ==> !#[trigger] match_at(h, n, j),
        find(h, n) is None ==> forall|j: int| !#[trigger] match_at(h, n, j),
{
    lemma_find_from(h, n, 0);
}

/// The first occurrence is characterised by being one with none before it.
pub proof fn lemma_find_is(h: Seq<char>, n: Seq<char>, k: int)
    requires
        match_at(h, n, k),
        forall|j: int| 0 <= j < k ==> !#[trigger] match_at(h, n, j),
    ensures
        find(h, n) == Some(k),
{
    lemma_find(h, n);
    if let Some(k2) = find(h, n) {
        if k2 < k {
        } else if k2 > k {
            assert(!match_at(h, n, k));
        }
    }
}

/// No occurrence anywhere means `find` gives `None`.
pub proof fn lemma_find_none(h: Seq<char>, n: Seq<char>)
    requires
        forall|j: int| !#[trigger] match_at(h, n, j),
    ensures
        find(h, n) is None,
{
    lemma_find(h, n);
}

/// `n` occurs in `h` at `i`.
pub fn matches_at(h: &[char], n: &[char], i: usize) -> (r: bool)
    requires
        i + n@.len() <= h@.len(),
    ensures
        r == match_at(h@, n@, i as int),
{
    let hl = h.len();
    let mut j: usize = 0;
    while j < n.len()
        invariant
            hl == h@.len(),
            i + n@.len() <= h@.len(),
            j <= n@.len(),
            forall|k: int| 0 <= k < j ==> h@[i + k] == n@[k],
        decreases n@.len() - j,
    {
        if h[i + j] != n[j] {
            assert(h@.subrange(i as int, i + n@.len())[j as int] != n@[j as int]);
            return false;
        }
        j = j + 1;
    }
    assert(h@.subrange(i as int, i + n@.len()) =~= n@);
    true
}

/// `str::find`: the index of the first occurrence of `n` in `h`.
pub fn find_chars(h: &[char], n: &[char]) -> (r: Option<usize>)
    ensures
        match r {
            Some(k) => find(h@, n@) == Some(k as int),
            None => find(h@, n@) is None,
        },
{
    if n.len() > h.len() {
        proof {
            lemma_find_none(h@, n@);
        }
        return None;
    }
    if n.len() == 0 {
        proof {
            assert(h@.subrange(0, 0) =~= n@);
            lemma_find_is(h@, n@, 0);
        }
        return Some(0);
    }
    let bound = h.len() - n.len() + 1;
    let mut i: usize = 0;
    while i < bound
        invariant
            bound + n@.len() == h@.len() + 1,
            i <= bound,
            forall|j: int| 0 <= j < i ==> !#[trigger] match_at(h@, n@, j),
        decreases bound - i,
    {
        if matches_at(h, n, i) {
            proof {
                lemma_find_is(h@, n@, i as int);
            }
            return Some(i);
        }
        i = i + 1;
    }
    proof {
        assert forall|j: int| !#[trigger] match_at(h@, n@, j) by {
            if 0 <= j && j + n@.len() <= h@.len() {
                assert(j < i);
            }
        }
        lemma_find_none(h@, n@);
    }
    None
}

/// `str::contains` with a string pattern.
pub fn contains_chars(h: &[char], n: &[char]) -> (r: bool)
    ensures
        r == contains(h@, n@),
{
    find_chars(h, n).is_some()
}


/// The views of a list of strings.
pub open spec fn string_views(v: Seq<String>) -> Seq<Seq<char>> {
    v.map_values(|s: String| s@)
}

/// The views of a list of string pairs.
pub open spec fn pair_views(v: Seq<(String, String)>) -> Seq<(Seq<char>, Seq<char>)> {
    v.map_values(|p: (String, String)| (p.0@, p.1@))
}

/// The character views of a list of character vectors.
pub open spec fn views(v: Seq<Vec<char>>) -> Seq<Seq<char>> {
    v.map_values(|x: Vec<char>| x@)
}

/// Length of the first line: the index of the first `'\n'`, or the length.
pub open spec fn line_len(s: Seq<char>) -> nat
    decreases s.len(),
{
    if s.len() == 0 || s[0] == '\n' {
        0
    } else {
        1 + line_len(s.drop_first())
    }
}

/// A line without the `'\r'` that precedes its `'\n'`.
pub open spec fn strip_cr(t: Seq<char>) -> Seq<char> {
    if t.len() > 0 && t.last() == '\r' {
        t.drop_last()
    } else {
        t
    }
}

/// `str::lines`: split at `'\n'` (dropping a `'\r'` before it); a final
/// line ending adds no empty line.
pub open spec fn lines(s: Seq<char>) -> Seq<Seq<char>>
    decreases s.len(),
{
    if s.len() == 0 {
        seq![]
    } else {
        let k = line_len(s);
        if k >= s.len() {
            seq![s]
        } else {
            seq![strip_cr(s.take(k as int))] + lines(s.skip((k + 1) as int))
        }
    }
}

pub proof fn lemma_line_len_is(s: Seq<char>, k: int)
    requires
        0 <= k <= s.len(),
        forall|i: int| 0 <= i < k ==> #[trigger] s[i] != '\n',
        k == s.len() || s[k] == '\n',
    ensures
        line_len(s) == k,
    decreases k,
{
    if k > 0 {
        let t = s.drop_first();
        assert forall|i: int| 0 <= i < k - 1 implies #[trigger] t[i] != '\n' by {
            assert(t[i] == s[i + 1]);
        }
        if k < s.len() {
            assert(t[k - 1] == s[k]);
        }
        assert(s[0] != '\n');
        lemma_line_len_is(t, k - 1);
    }
}

/// `str::lines` on characters.
pub fn lines_chars(s: &[char]) -> (r: Vec<Vec<char>>)
    ensures
        views(r@) == lines(s@),
{
    let n = s.len();
    let mut out: Vec<Vec<char>> = Vec::new();
    let mut pos: usize = 0;
    proof {
        assert(s@.skip(0) =~= s@);
        assert(views(out@) + lines(s@.skip(0)) =~= lines(s@));
    }
    while pos < n
        invariant
            n == s@.len(),
            pos <= n,
            views(out@) + lines(s@.skip(pos as int)) == lines(s@),
        decreases n - pos,
    {
        let ghost t = s@.skip(pos as int);
        let mut k = pos;
        while k < n && s[k] != '\n'
            invariant
                n == s@.len(),
                pos <= k <= n,
                forall|i: int| pos <= i < k ==> #[trigger] s@[i] != '\n',
            decreases n - k,
        {
            k = k + 1;
        }
        proof {
            assert forall|i: int| 0 <= i < k - pos implies #[trigger] t[i] != '\n' by {
                assert(t[i] == s@[pos + i]);
            }
            lemma_line_len_is(t, k - pos);
        }
        let ghost old_out = views(out@);
        if k == n {
            let line = sub_chars(s, pos, n);
            out.push(line);
            proof {
                assert(t =~= s@.subrange(pos as int, n as int));
                assert(views(out@) =~= old_out.push(t));
                assert(s@.skip(n as int) =~= Seq::<char>::empty());
                assert(lines(s@.skip(n as int)) =~= Seq::<Seq<char>>::empty());
                assert(views(out@) + lines(s@.skip(n as int)) =~= old_out + lines(t));
            }
            pos = n;
        } else {
            let mut end = k;
            if end > pos && s[end - 1] == '\r' {
                end = end - 1;
            }
            let line = sub_chars(s, pos, end);
            out.push(line);
            proof {
                assert(line@ =~= strip_cr(t.take(k - pos)));
                assert(views(out@) =~= old_out.push(line@));
                assert(t.skip(k - pos + 1) =~= s@.skip(k + 1));
                assert(lines(t) == seq![strip_cr(t.take(k - pos))] + lines(s@.skip(k + 1)));
                assert(views(out@) + lines(s@.skip(k + 1)) =~= old_out + lines(t));
            }
            pos = k + 1;
        }
    }
    proof {
        assert(s@.skip(pos as int) =~= Seq::<char>::empty());
        assert(views(out@) + lines(s@.skip(pos as int)) =~= views(out@));
    }
    out
}


/// Length of the leading run of non-whitespace characters.
pub open spec fn word_len(s: Seq<char>) -> nat
    decreases s.len(),
{
    if s.len() == 0 || is_ws(s[0]) {
        0
    } else {
        1 + word_len(s.drop_first())
    }
}

pub proof fn lemma_word_len_bound(s: Seq<char>)
    ensures
        word_len(s) <= s.len(),
    decreases s.len(),
{
    if s.len() > 0 && !is_ws(s[0]) {
        lemma_word_len_bound(s.drop_first());
    }
}

/// `str::split_whitespace`: the maximal runs of non-whitespace characters.
pub open spec fn words(s: Seq<char>) -> Seq<Seq<char>>
    decreases s.len(),
{
    if s.len() == 0 {
        seq![]
    } else if is_ws(s[0]) {
        words(s.drop_first())
    } else {
        let k = word_len(s);
        proof {
            lemma_word_len_bound(s);
        }
        seq![s.take(k as int)] + words(s.skip(k as int))
    }
}

pub proof fn lemma_word_len_is(s: Seq<char>, k: int)
    requires
        0 <= k <= s.len(),
        forall|i: int| 0 <= i < k ==> !is_ws(#[trigger] s[i]),
        k == s.len() || is_ws(s[k]),
    ensures
        word_len(s) == k,
    decreases k,
{
    if k > 0 {
        let t = s.drop_first();
        assert forall|i: int| 0 <= i < k - 1 implies !is_ws(#[trigger] t[i]) by {
            assert(t[i] == s[i + 1]);
        }
        if k < s.len() {
            assert(t[k - 1] == s[k]);
        }
        assert(!is_ws(s[0]));
        lemma_word_len_is(t, k - 1);
    }
}

/// `str::split_whitespace` on characters.
pub fn words_chars(s: &[char]) -> (r: Vec<Vec<char>>)
    ensures
        views(r@) == words(s@),
{
    let n = s.len();
    let mut out: Vec<Vec<char>> = Vec::new();
    let mut pos: usize = 0;
    proof {
        assert(s@.skip(0) =~= s@);
        assert(views(out@) + words(s@.skip(0)) =~= words(s@));
    }
    while pos < n
        invariant
            n == s@.len(),
            pos <= n,
            views(out@) + words(s@.skip(pos as int)) == words(s@),
        decreases n - pos,
    {
        let ghost t = s@.skip(pos as int);
        if is_ws_char(s[pos]) {
            proof {
                assert(t.drop_first() =~= s@.skip(pos + 1));
            }
            pos = pos + 1;
        } else {
            let mut k = pos;
            while k < n && !is_ws_char(s[k])
                invariant
                    n == s@.len(),
                    pos <= k <= n,
                    forall|i: int| pos <= i < k ==> !is_ws(#[trigger] s@[i]),
                decreases n - k,
            {
                k = k + 1;
            }
            proof {
                assert forall|i: int| 0 <= i < k - pos implies !is_ws(#[trigger] t[i]) by {
                    assert(t[i] == s@[pos + i]);
                }
                lemma_word_len_is(t, k - pos);
            }
            let ghost old_out = views(out@);
            let word = sub_chars(s, pos, k);
            out.push(word);
            proof {
                assert(word@ =~= t.take(k - pos));
                assert(views(out@) =~= old_out.push(word@));
                assert(t.skip(k - pos) =~= s@.skip(k as int));
                assert(views(out@) + words(s@.skip(k as int)) =~= old_out + words(t));
            }
            pos = k;
        }
    }
    proof {
        assert(s@.skip(pos as int) =~= Seq::<char>::empty());
        assert(views(out@) + words(s@.skip(pos as int)) =~= views(out@));
    }
    out
}

/// Value of a decimal digit character.
pub open spec fn digit_value(c: char) -> int {
    (c as u32) - ('0' as u32)
}

pub open spec fn is_digit(c: char) -> bool {
    '0' <= c && c <= '9'
}

/// Value of a string of decimal digits.
pub open spec fn digits_value(d: Seq<char>) -> int
    decreases d.len(),
{
    if d.len() == 0 {
        0
    } else {
        digits_value(d.drop_last()) * 10 + digit_value(d.last())
    }
}

/// The digits of an unsigned number: the text without one leading `'+'`.
pub open spec fn unsigned_digits(s: Seq<char>) -> Seq<char> {
    if s.len() > 0 && s[0] == '+' {
        s.drop_first()
    } else {
        s
    }
}

pub open spec fn all_digits(d: Seq<char>) -> bool {
    forall|i: int| 0 <= i < d.len() ==> is_digit(#[trigger] d[i])
}

/// `u16::from_str`: an optional `'+'`, then one or more ASCII digits whose
/// value fits in 16 bits.
pub open spec fn parse_u16(s: Seq<char>) -> Option<u16> {
    let d = unsigned_digits(s);
    if d.len() > 0 && all_digits(d) && digits_value(d) <= 0xffff {
        Some(digits_value(d) as u16)
    } else {
        None
    }
}

pub proof fn lemma_digits_value_nonneg(d: Seq<char>)
    requires
        forall|i: int| 0 <= i < d.len() ==> is_digit(#[trigger] d[i]),
    ensures
        digits_value(d) >= 0,
    decreases d.len(),
{
    if d.len() > 0 {
        assert(is_digit(d[d.len() - 1]));
        lemma_digits_value_nonneg(d.drop_last());
    }
}

/// A prefix never has a larger value than the digit string it starts.
pub proof fn lemma_digits_value_prefix(d: Seq<char>, k: int)
    requires
        0 <= k <= d.len(),
        forall|i: int| 0 <= i < d.len() ==> is_digit(#[trigger] d[i]),
    ensures
        digits_value(d.take(k)) <= digits_value(d),
    decreases d.len() - k,
{
    if k < d.len() {
        let e = d.drop_last();
        assert forall|i: int| 0 <= i < e.len() implies is_digit(#[trigger] e[i]) by {
            assert(e[i] == d[i]);
        }
        assert(e.take(k) =~= d.take(k));
        lemma_digits_value_prefix(e, k);
        lemma_digits_value_nonneg(e);
        assert(is_digit(d[d.len() - 1]));
    } else {
        assert(d.take(k) =~= d);
    }
}

/// `u16::from_str` on characters.
pub fn parse_u16_chars(s: &[char]) -> (r: Option<u16>)
    ensures
        r == parse_u16(s@),
{
    let n = s.len();
    let start: usize = if n > 0 && s[0] == '+' {
        1
    } else {
        0
    };
    let ghost d = unsigned_digits(s@);
    proof {
        assert(d =~= s@.skip(start as int));
    }
    if start == n {
        return None;
    }
    let mut value: u32 = 0;
    let mut i = start;
    while i < n
        invariant
            n == s@.len(),
            start <= i <= n,
            d =~= s@.skip(start as int),
            d == unsigned_digits(s@),
            forall|j: int| 0 <= j < i - start ==> is_digit(#[trigger] d[j]),
            value == digits_value(d.take(i - start)),
            value <= 0xffff,
        decreases n - i,
    {
        let c = s[i];
        if !('0' <= c && c <= '9') {
            proof {
                assert(d[i - start] == c);
                assert(!is_digit(d[i - start]));
                assert(!all_digits(d));
            }
            return None;
        }
        let ghost prev = d.take(i - start);
        let digit = (c as u32) - ('0' as u32);
        let next = value * 10 + digit;
        proof {
            assert(d[i - start] == c);
            assert(d.take(i + 1 - start).drop_last() =~= prev);
            assert(d.take(i + 1 - start).last() == c);
        }
        if next > 0xffff {
            proof {
                assert(digits_value(d.take(i + 1 - start)) == next);
                if all_digits(d) {
                    lemma_digits_value_prefix(d, i + 1 - start);
                }
            }
            return None;
        }
        value = next;
        i = i + 1;
    }
    proof {
        assert(d.take(n - start) =~= d);
    }
    Some(value as u16)
}

/// Decimal digits of `n`, most significant first, without leading zeros.
pub open spec fn decimal(n: nat) -> Seq<char>
    decreases n,
{
    if n < 10 {
        seq![digit_char(n)]
    } else {
        decimal(n / 10).push(digit_char(n % 10))
    }
}

pub open spec fn digit_char(d: nat) -> char {
    (('0' as u32) + d) as char
}

/// Appends the decimal form of `n`.
pub fn push_decimal(out: &mut String, n: u32)
    ensures
        final(out)@ == old(out)@ + decimal(n as nat),
    decreases n,
{
    if n >= 10 {
        push_decimal(out, n / 10);
    }
    let d = n % 10;
    let c = char_from_digit(d);
    push_char(out, c);
    proof {
        if n >= 10 {
            assert(decimal(n as nat) == decimal((n / 10) as nat).push(digit_char((n % 10) as nat)));
        }
    }
    assert(final(out)@ =~= old(out)@ + decimal(n as nat));
}

/// The character of a decimal digit.
fn char_from_digit(d: u32) -> (c: char)
    requires
        d < 10,
    ensures
        c == digit_char(d as nat),
{
    if d == 0 { '0' }
    else if d == 1 { '1' }
    else if d == 2 { '2' }
    else if d == 3 { '3' }
    else if d == 4 { '4' }
    else if d == 5 { '5' }
    else if d == 6 { '6' }
    else if d == 7 { '7' }
    else if d == 8 { '8' }
    else { '9' }
}


/// Equality of two character slices.
pub fn chars_eq(a: &[char], b: &[char]) -> (r: bool)
    ensures
        r == (a@ == b@),
{
    if a.len() != b.len() {
        return false;
    }
    let r = matches_at(a, b, 0);
    proof {
        assert(a@.subrange(0, b@.len() as int) =~= a@);
    }
    r
}

/// Equality of two string slices.
pub fn str_eq(a: &str, b: &str) -> (r: bool)
    ensures
        r == (a@ == b@),
{
    let x = chars_of(a);
    let y = chars_of(b);
    chars_eq(&x, &y)
}

/// A text with no whitespace at either end.
pub open spec fn is_trimmed(z: Seq<char>) -> bool {
    z.len() == 0 || (!is_ws(z[0]) && !is_ws(z.last()))
}

pub proof fn lemma_trim_is_trimmed(y: Seq<char>)
    ensures
        is_trimmed(trim(y)),
        trim(y).len() <= y.len(),
{
    let a = trim_start(y);
    lemma_lead_ws_bound(y);
    lemma_trail_ws_bound(a);
    let z = trim(y);
    if z.len() > 0 {
        assert(z[0] == a[0]);
        assert(a[0] == y[lead_ws(y) as int]);
        assert(z.last() == a[a.len() - trail_ws(a) - 1]);
    }
}

/// Trimming a trimmed text changes nothing.
pub proof fn lemma_trimmed_fixed(z: Seq<char>)
    requires
        is_trimmed(z),
    ensures
        trim_start(z) == z,
        trim_end(z) == z,
        trim(z) == z,
{
    if z.len() == 0 {
        lemma_lead_ws_is(z, 0);
        lemma_trail_ws_is(z, 0);
    } else {
        lemma_lead_ws_is(z, 0);
        lemma_trail_ws_is(z, 0);
    }
    assert(z.skip(0) =~= z);
    assert(z.take(z.len() as int) =~= z);
}

/// A match inside a part is a match in the whole.
pub proof fn lemma_match_in_subrange(h: Seq<char>, n: Seq<char>, a: int, b: int, j: int)
    requires
        0 <= a <= b <= h.len(),
        match_at(h.subrange(a, b), n, j),
    ensures
        match_at(h, n, a + j),
{
    assert(h.subrange(a + j, a + j + n.len()) =~= h.subrange(a, b).subrange(j, j + n.len()));
}

/// Text with no occurrence of `n` has none in any part of it.
pub proof fn lemma_not_contains_subrange(h: Seq<char>, n: Seq<char>, a: int, b: int)
    requires
        0 <= a <= b <= h.len(),
        !contains(h, n),
    ensures
        !contains(h.subrange(a, b), n),
{
    lemma_find(h, n);
    lemma_find(h.subrange(a, b), n);
    if let Some(j) = find(h.subrange(a, b), n) {
        lemma_match_in_subrange(h, n, a, b, j);
    }
}

/// Text that stands between two others is contained in the whole.
pub proof fn lemma_contains_middle(x: Seq<char>, p: Seq<char>, y: Seq<char>)
    ensures
        contains(x + p + y, p),
{
    let t = x + p + y;
    assert(t.subrange(x.len() as int, (x.len() + p.len()) as int) =~= p);
    assert(match_at(t, p, x.len() as int));
    lemma_find(t, p);
}

} // verus!
