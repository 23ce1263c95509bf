//! Finding the local port of the Astrill OpenWeb tunnel from the process
//! list: the `--proxy-port` argument of an `openweb` process.

use vstd::prelude::*;

use crate::text::{
    chars_eq, chars_of, lines, lines_chars, parse_u16, parse_u16_chars, string_of, string_views,
    trim, trim_chars, views, words, words_chars,
};

verus! {

/// The text of a command's output, or nothing when it failed.
pub open spec fn output_or_empty(r: Result<String, String>) -> Seq<char> {
    match r {
        Ok(s) => s@,
        Err(_) => Seq::empty(),
    }
}

/// `command_output(..).unwrap_or_default()`: the output of a command, or the
/// empty text when it could not be run.
pub fn command_output_or_empty(result: Result<String, String>) -> (r: String)
    ensures
        r@ == output_or_empty(result),
{
    match result {
        Ok(s) => s,
        Err(_) => String::new(),
    }
}

/// The trimmed, non-empty lines of a text.
pub open spec fn trimmed_lines(ls: Seq<Seq<char>>) -> Seq<Seq<char>>
    decreases ls.len(),
{
    if ls.len() == 0 {
        seq![]
    } else if trim(ls.last()).len() > 0 {
        trimmed_lines(ls.drop_last()).push(trim(ls.last()))
    } else {
        trimmed_lines(ls.drop_last())
    }
}

/// The process ids that `pgrep` printed, one per line.
pub fn astrill_pids(pgrep_output: Result<String, String>) -> (r: Vec<String>)
    ensures
        string_views(r@) == trimmed_lines(lines(output_or_empty(pgrep_output))),
{
    let text = command_output_or_empty(pgrep_output);
    let chars = chars_of(text.as_str());
    let ls = lines_chars(&chars);
    let mut out: Vec<String> = Vec::new();
    let mut i: usize = 0;
    while i < ls.len()
        invariant
            i <= ls@.len(),
            views(ls@) == lines(text@),
            string_views(out@) == trimmed_lines(views(ls@).take(i as int)),
        decreases ls@.len() - i,
    {
        let t = trim_chars(ls[i].as_slice());
        proof {
            assert(views(ls@).take(i + 1).drop_last() =~= views(ls@).take(i as int));
            assert(views(ls@).take(i + 1).last() == ls@[i as int]@);
        }
        if t.len() > 0 {
            let ghost before = string_views(out@);
            out.push(string_of(&t));
            assert(string_views(out@) =~= before.push(t@));
        }
        i = i + 1;
    }
    assert(views(ls@).take(i as int) =~= views(ls@));
    out
}

/// The port named by the first `--proxy-port` argument, at or after word
/// `i`, that is followed by a valid port number.
pub open spec fn port_after_flag(ws: Seq<Seq<char>>, i: int) -> Option<u16>
    decreases ws.len() - i,
{
    if i < 0 || i + 1 >= ws.len() {
        None
    } else if ws[i] == "--proxy-port"@ && parse_u16(ws[i + 1]) is Some {
        parse_u16(ws[i + 1])
    } else {
        port_after_flag(ws, i + 1)
    }
}

/// The proxy port in a process's command line.
pub open spec fn command_proxy_port(line: Seq<char>) -> Option<u16> {
    port_after_flag(words(line), 0)
}

/// The proxy port given on a process's command line: the word after the
/// first `--proxy-port` that is followed by a valid port number.
pub fn proxy_port_from_command(line: &str) -> (r: Option<u16>)
    ensures
        r == command_proxy_port(line@),
{
    let chars = chars_of(line);
    let ws = words_chars(&chars);
    let flag = chars_of("--proxy-port");
    let n = ws.len();
    let mut i: usize = 0;
    while n > 0 && i < n - 1
        invariant
            n == ws@.len(),
            flag@ == "--proxy-port"@,
            views(ws@) == words(line@),
            port_after_flag(words(line@), i as int) == command_proxy_port(line@),
        decreases n - i,
    {
        assert(views(ws@)[i as int] == ws@[i as int]@);
        assert(views(ws@)[i + 1] == ws@[i + 1]@);
        if chars_eq(ws[i].as_slice(), flag.as_slice()) {
            let port = parse_u16_chars(ws[i + 1].as_slice());
            if port.is_some() {
                return port;
            }
        }
        i = i + 1;
    }
    None
}

/// The next step of the port search.
pub enum DetectAction {
    /// Read the command line of this process.
    QueryProcess(String),
    /// The search is over.
    Finished(Result<Option<u16>, String>),
}

/// The outcome once the command lines in `answers` have been read, in the
/// order of the process ids: the first failure, or the first port found;
/// `None` when neither occurred.
pub open spec fn detect_so_far(answers: Seq<Result<String, String>>) -> Option<
    Result<Option<u16>, Seq<char>>,
>
    decreases answers.len(),
{
    if answers.len() == 0 {
        None
    } else {
        match detect_so_far(answers.drop_last()) {
            Some(r) => Some(r),
            None => match answers.last() {
                Err(e) => Some(Err(e@)),
                Ok(line) => match command_proxy_port(line@) {
                    Some(p) => Some(Ok(Some(p))),
                    None => None,
                },
            },
        }
    }
}

impl DetectAction {
    /// `Ok(pid)` for a query, `Err(outcome)` when finished.
    pub open spec fn model(self) -> Result<Seq<char>, Result<Option<u16>, Seq<char>>> {
        match self {
            DetectAction::QueryProcess(pid) => Ok(pid@),
            DetectAction::Finished(Ok(p)) => Err(Ok(p)),
            DetectAction::Finished(Err(e)) => Err(Err(e@)),
        }
    }
}

/// What the port search does next, given the `openweb` process ids and the
/// command lines read so far (for the first `answers.len()` of them): stop
/// at the first failure or the first port found, otherwise read the next
/// process, and report no port once all are read.
pub fn detect_astrill_port_sync(pids: &Vec<String>, answers: &Vec<Result<String, String>>) -> (r:
    DetectAction)
    requires
        answers@.len() <= pids@.len(),
    ensures
        r.model() == match detect_so_far(answers@) {
            Some(outcome) => Err(outcome),
            None => if answers@.len() < pids@.len() {
                Ok(pids@[answers@.len() as int]@)
            } else {
                Err(Ok(None))
            },
        },
{
    let mut k: usize = 0;
    while k < answers.len()
        invariant
            k <= answers@.len(),
            detect_so_far(answers@.take(k as int)) is None,
        decreases answers@.len() - k,
    {
        proof {
            assert(answers@.take(k + 1).drop_last() =~= answers@.take(k as int));
            assert(answers@.take(k + 1).last() == answers@[k as int]);
        }
        match &answers[k] {
            Err(e) => {
                proof {
                    lemma_detect_prefix(answers@, k as int + 1);
                }
                return DetectAction::Finished(Err(e.clone()));
            },
            Ok(line) => {
                let port = proxy_port_from_command(line.as_str());
                if port.is_some() {
                    proof {
                        lemma_detect_prefix(answers@, k as int + 1);
                    }
                    return DetectAction::Finished(Ok(port));
                }
            },
        }
        k = k + 1;
    }
    assert(answers@.take(k as int) =~= answers@);
    if answers.len() < pids.len() {
        DetectAction::QueryProcess(pids[answers.len()].clone())
    } else {
        DetectAction::Finished(Ok(None))
    }
}

/// Once a prefix of the answers settles the search, later answers do not
/// change it.
pub proof fn lemma_detect_prefix(answers: Seq<Result<String, String>>, k: int)
    requires
        0 <= k <= answers.len(),
        detect_so_far(answers.take(k)) is Some,
    ensures
        detect_so_far(answers) == detect_so_far(answers.take(k)),
    decreases answers.len() - k,
{
    if k < answers.len() {
        assert(answers.drop_last().take(k) =~= answers.take(k));
        lemma_detect_prefix(answers.drop_last(), k);
    } else {
        assert(answers.take(k) =~= answers);
    }
}

} // verus!
