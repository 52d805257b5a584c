//! Splitting a command line into tokens, and tokens into a command and its
//! arguments.
use vstd::prelude::*;
use vstd::string::StringExecFns;

use crate::model::{
    chunk, closes_at, extend, is_quote, lemma_extend_extend, lemma_in_quote, lemma_unclosed,
    nothing_message, tokens, unclosed_message, unexpected_message,
};
use crate::text::{chars_of, push_range, string_of, white_space};

verus! {

/// Why a line could not be parsed.
#[derive(Clone, Debug, PartialEq)]
pub enum ParserError {
    /// The line holds no token, so there is no command to run.
    EmptyCommand,
    /// A quoted span was never closed, or a quoted span was asked for where
    /// no quote stands.
    MismatchedQuotes(String),
    /// A quoted span was asked for at the end of the input.
    Custom(String),
}

/// The views of a sequence of strings.
pub open spec fn views(v: Seq<String>) -> Seq<Seq<char>> {
    v.map_values(|x: String| x@)
}

/// The index of the quote that closes the span opening at `v[k]`, if any.
fn closing(v: &Vec<char>, k: usize) -> (r: Option<usize>)
    requires
        k < v.len(),
    ensures
        match r {
            Some(j) => k < j < v.len() && v@[j as int] == v@[k as int] && forall|m: int|
                k < m < j ==> #[trigger] v@[m] != v@[k as int],
            None => forall|m: int| k < m < v.len() ==> #[trigger] v@[m] != v@[k as int],
        },
{
    let q = v[k];
    let mut j: usize = k + 1;
    while j < v.len()
        invariant
            k < j <= v.len(),
            q == v@[k as int],
            forall|m: int| k < m < j ==> #[trigger] v@[m] != q,
        decreases v.len() - j,
    {
        if v[j] == q {
            return Some(j);
        }
        j = j + 1;
    }
    None
}

/// The error for a quoted span opening at `v[k]` that is never closed.
fn unclosed_error(v: &Vec<char>, k: usize) -> (e: ParserError)
    requires
        k < v.len(),
    ensures
        e matches ParserError::MismatchedQuotes(m) && m@ == unclosed_message(v@.skip(k as int)),
{
    let mut m = "could not find closing quotes when trying to parse `".to_owned();
    push_range(&mut m, v, k, v.len());
    m.append("`, expected `");
    m.push(v[k]);
    m.append("`");
    assert(v@.subrange(k as int, v.len() as int) =~= v@.skip(k as int));
    assert(m@ =~= unclosed_message(v@.skip(k as int)));
    ParserError::MismatchedQuotes(m)
}

/// Scans the field that starts at `v[i]`: returns its token and the index
/// where the rest of the line starts.
fn scan_field(v: &Vec<char>, i: usize) -> (r: Result<(String, usize), ParserError>)
    requires
        i <= v.len(),
    ensures
        match chunk(v@.skip(i as int)) {
            Ok((t, rest)) => r matches Ok((tok, j)) && tok@ == t && i <= j <= v.len() && rest
                == v@.skip(j as int) && (i < v.len() && !white_space(v@[i as int]) ==> i < j),
            Err(e) => r matches Err(ParserError::MismatchedQuotes(m)) && m@ == unclosed_message(e),
        },
{
    let mut acc = String::new();
    let mut k: usize = i;
    assert(chunk(v@.skip(i as int)) == extend(acc@, chunk(v@.skip(i as int)))) by {
        if let Ok((t, rest)) = chunk(v@.skip(i as int)) {
            assert(acc@ + t =~= t);
        }
    }
    while k < v.len()
        invariant
            i <= k <= v.len(),
            chunk(v@.skip(i as int)) == extend(acc@, chunk(v@.skip(k as int))),
        decreases v.len() - k,
    {
        let c = v[k];
        let s = Ghost(v@.skip(k as int));
        assert(s@.drop_first() =~= v@.skip(k + 1));
        if c.is_whitespace() {
            assert(acc@ + Seq::<char>::empty() =~= acc@);
            return Ok((acc, k));
        }
        if c == '"' || c == '\'' {
            match closing(v, k) {
                Some(j) => {
                    proof {
                        let d = v@.skip(k + 1);
                        let n = j - k - 1;
                        assert forall|m: int| 0 <= m < n implies #[trigger] d[m] != s@[0] by {
                            assert(d[m] == v@[k + 1 + m]);
                        }
                        lemma_in_quote(d, s@, n);
                        assert(d.take(n) =~= v@.subrange(k + 1, j as int));
                        assert(d.skip(n + 1) =~= v@.skip(j + 1));
                        lemma_extend_extend(
                            acc@,
                            v@.subrange(k + 1, j as int),
                            chunk(v@.skip(j + 1)),
                        );
                    }
                    push_range(&mut acc, v, k + 1, j);
                    k = j + 1;
                },
                None => {
                    proof {
                        let d = v@.skip(k + 1);
                        assert forall|m: int| 0 <= m < d.len() implies #[trigger] d[m]
                            != s@[0] by {
                            assert(d[m] == v@[k + 1 + m]);
                        }
                        lemma_unclosed(d, s@);
                    }
                    return Err(unclosed_error(v, k));
                },
            }
        } else {
            proof {
                lemma_extend_extend(acc@, seq![c], chunk(v@.skip(k + 1)));
                assert(acc@.push(c) =~= acc@ + seq![c]);
            }
            acc.push(c);
            k = k + 1;
        }
    }
    assert(v@.skip(k as int) =~= Seq::<char>::empty());
    assert(acc@ + Seq::<char>::empty() =~= acc@);
    Ok((acc, k))
}

/// Reads the quoted span at the start of `input`: returns the rest of the
/// input after the closing quote, and what stands between the quotes. No
/// escapes are recognised; the other quote character is plain content.
pub fn parse_quoted(input: &str) -> (r: Result<(String, String), ParserError>)
    ensures
        match r {
            Ok((rest, body)) => is_quote(input@[0]) && exists|j: int|
                closes_at(input@, j) && body@ == input@.subrange(1, j) && rest@ == input@.skip(
                    j + 1,
                ),
            Err(ParserError::Custom(m)) => input@.len() == 0 && m@ == nothing_message(),
            Err(ParserError::MismatchedQuotes(m)) => input@.len() > 0 && if is_quote(input@[0]) {
                (forall|j: int| !closes_at(input@, j)) && m@ == unclosed_message(input@)
            } else {
                m@ == unexpected_message(input@[0])
            },
            Err(ParserError::EmptyCommand) => false,
        },
{
    let v = chars_of(input);
    if v.len() == 0 {
        return Err(
            ParserError::Custom(
                "expected quote, found nothing at position 0 when trying to parse a quoted string".to_owned(),
            ),
        );
    }
    let q = v[0];
    if q != '"' && q != '\'' {
        let mut m = "Expected a single or double quote, found ".to_owned();
        m.push(q);
        m.append(" at position 0 when trying to parse a quoted string");
        assert(m@ =~= unexpected_message(q));
        return Err(ParserError::MismatchedQuotes(m));
    }
    match closing(&v, 0) {
        Some(j) => {
            assert(closes_at(input@, j as int));
            Ok((string_of(&v, j + 1, v.len()), string_of(&v, 1, j)))
        },
        None => {
            assert forall|j: int| !closes_at(input@, j) by {
                if 1 <= j < input@.len() {
                    assert(v@[j] != v@[0]);
                }
            }
            assert(v@.skip(0) =~= v@);
            Err(unclosed_error(&v, 0))
        },
    }
}

/// Reads the first whitespace-separated field of `input`, with quoted spans
/// taken whole and their quotes dropped: returns the rest of the input, from
/// the whitespace that ends the field, and the field's token.
pub fn parse_space_seperated_chunk(input: &str) -> (r: Result<(String, String), ParserError>)
    ensures
        match chunk(input@) {
            Ok((t, rest)) => r matches Ok((a, b)) && a@ == rest && b@ == t,
            Err(e) => r matches Err(ParserError::MismatchedQuotes(m)) && m@ == unclosed_message(e),
        },
{
    let v = chars_of(input);
    assert(v@.skip(0) =~= v@);
    match scan_field(&v, 0) {
        Ok((tok, j)) => {
            assert(v@.subrange(j as int, v.len() as int) =~= v@.skip(j as int));
            Ok((string_of(&v, j, v.len()), tok))
        },
        Err(e) => Err(e),
    }
}

/// `res` with the tokens `p` put in front.
pub open spec fn put_before(p: Seq<Seq<char>>, res: Result<Seq<Seq<char>>, Seq<char>>) -> Result<
    Seq<Seq<char>>,
    Seq<char>,
> {
    match res {
        Ok(ts) => Ok(p + ts),
        Err(e) => Err(e),
    }
}

/// Splits a line into its tokens. A line that is empty or all whitespace has
/// none; an unclosed quote fails the whole line.
pub fn tokenize(input: &str) -> (r: Result<Vec<String>, ParserError>)
    ensures
        match tokens(input@) {
            Ok(ts) => r matches Ok(out) && views(out@) == ts,
            Err(e) => r matches Err(ParserError::MismatchedQuotes(m)) && m@ == unclosed_message(e),
        },
{
    let v = chars_of(input);
    let mut out: Vec<String> = Vec::new();
    let mut k: usize = 0;
    assert(v@.skip(0) =~= v@);
    assert(put_before(views(out@), tokens(v@)) == tokens(v@)) by {
        if let Ok(ts) = tokens(v@) {
            assert(views(out@) + ts =~= ts);
        }
    }
    while k < v.len()
        invariant
            k <= v.len(),
            v@ == input@,
            tokens(v@) == put_before(views(out@), tokens(v@.skip(k as int))),
        decreases v.len() - k,
    {
        let ghost s = v@.skip(k as int);
        assert(s.drop_first() =~= v@.skip(k + 1));
        if v[k].is_whitespace() {
            k = k + 1;
        } else {
            match scan_field(&v, k) {
                Ok((tok, j)) => {
                    let ghost before = views(out@);
                    out.push(tok);
                    proof {
                        assert(views(out@) =~= before + seq![tok@]);
                        if let Ok(ts) = tokens(v@.skip(j as int)) {
                            assert(before + (seq![tok@] + ts) =~= views(out@) + ts);
                        }
                    }
                    k = j;
                },
                Err(e) => {
                    return Err(e);
                },
            }
        }
    }
    assert(v@.skip(k as int) =~= Seq::<char>::empty());
    assert(views(out@) + Seq::<Seq<char>>::empty() =~= views(out@));
    Ok(out)
}

/// A command line split into the command to run and its arguments.
#[derive(Debug, PartialEq)]
pub struct ParsedCommand {
    pub command: String,
    pub args: Vec<String>,
}

impl View for ParsedCommand {
    type V = Seq<Seq<char>>;

    /// The command's tokens in order: the command name, then the arguments.
    open spec fn view(&self) -> Seq<Seq<char>> {
        seq![self.command@] + views(self.args@)
    }
}

impl ParsedCommand {
    /// Parses a command line: its first token is the command, the others are
    /// its arguments. A line without tokens is an `EmptyCommand`.
    pub fn parse_command(input: &str) -> (r: Result<Self, ParserError>)
        ensures
            match tokens(input@) {
                Ok(ts) => if ts.len() == 0 {
                    r matches Err(ParserError::EmptyCommand)
                } else {
                    r matches Ok(p) && p@ == ts
                },
                Err(e) => r matches Err(ParserError::MismatchedQuotes(m)) && m@ == unclosed_message(
                    e,
                ),
            },
    {
        match tokenize(input) {
            Ok(parts) => {
                if parts.len() == 0 {
                    return Err(ParserError::EmptyCommand);
                }
                let mut args = parts;
                let ghost all = views(args@);
                let command = args.remove(0);
                let p = ParsedCommand { command, args };
                assert(p@ =~= all);
                Ok(p)
            },
            Err(e) => Err(e),
        }
    }
}

} // verus!
