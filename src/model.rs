//! The mathematical model of the tokenizer: what a field, a token sequence
//! and each diagnostic are, over sequences of characters.
use vstd::prelude::*;

use crate::text::white_space;

verus! {

/// The two quote characters, `"` and `'`.
pub open spec fn is_quote(c: char) -> bool {
    c == '"' || c == '\''
}

/// What scanning a field yields: the token and the unconsumed rest of the
/// line, or, when a quoted span is never closed, the part of the line that
/// starts at its opening quote.
pub type Scan = Result<(Seq<char>, Seq<char>), Seq<char>>;

/// `res` with `p` put in front of its token.
pub open spec fn extend(p: Seq<char>, res: Scan) -> Scan {
    match res {
        Ok((t, r)) => Ok((p + t, r)),
        Err(e) => Err(e),
    }
}

/// The field scanner as a state machine over the characters of `s`. With
/// `open` equal to `None` the scanner is outside any quotes; with
/// `Some(from)` it is inside the span that opened at the first character of
/// `from` (the line from that quote onward), which only the same quote
/// character closes. Outside quotes, whitespace or the end of the line ends
/// the field; inside, the end of the line is the one failure.
pub open spec fn field_from(s: Seq<char>, open: Option<Seq<char>>) -> Scan
    decreases s.len(),
{
    if s.len() == 0 {
        match open {
            Some(from) => Err(from),
            None => Ok((Seq::empty(), Seq::empty())),
        }
    } else {
        let c = s[0];
        match open {
            None => {
                if white_space(c) {
                    Ok((Seq::empty(), s))
                } else if is_quote(c) {
                    field_from(s.drop_first(), Some(s))
                } else {
                    extend(seq![c], field_from(s.drop_first(), None))
                }
            },
            Some(from) => {
                if c == from[0] {
                    field_from(s.drop_first(), None)
                } else {
                    extend(seq![c], field_from(s.drop_first(), open))
                }
            },
        }
    }
}

/// The first field of `s`, scanned from outside any quotes.
pub open spec fn chunk(s: Seq<char>) -> Scan {
    field_from(s, None)
}

/// The tokens of a line: whitespace between fields is skipped, and each field
/// is scanned by `chunk`. An unclosed quote anywhere makes the whole line fail.
pub open spec fn tokens(s: Seq<char>) -> Result<Seq<Seq<char>>, Seq<char>>
    decreases s.len(),
    via tokens_decreases
{
    if s.len() == 0 {
        Ok(Seq::empty())
    } else if white_space(s[0]) {
        tokens(s.drop_first())
    } else {
        match chunk(s) {
            Err(e) => Err(e),
            Ok((t, r)) => match tokens(r) {
                Ok(ts) => Ok(seq![t] + ts),
                Err(e) => Err(e),
            },
        }
    }
}

#[via_fn]
proof fn tokens_decreases(s: Seq<char>) {
    if s.len() > 0 && !white_space(s[0]) {
        lemma_field_rest_shorter(s.drop_first(), if is_quote(s[0]) { Some(s) } else { None });
    }
}

/// Scanning never hands back more of the line than it was given.
pub proof fn lemma_field_rest_shorter(s: Seq<char>, open: Option<Seq<char>>)
    ensures
        field_from(s, open) matches Ok((_t, r)) ==> r.len() <= s.len(),
    decreases s.len(),
{
    if s.len() > 0 {
        let c = s[0];
        match open {
            None => {
                if !white_space(c) {
                    if is_quote(c) {
                        lemma_field_rest_shorter(s.drop_first(), Some(s));
                    } else {
                        lemma_field_rest_shorter(s.drop_first(), None);
                    }
                }
            },
            Some(from) => {
                if c == from[0] {
                    lemma_field_rest_shorter(s.drop_first(), None);
                } else {
                    lemma_field_rest_shorter(s.drop_first(), open);
                }
            },
        }
    }
}

/// The diagnostic for a quoted span that is never closed; `from` is the line
/// from the opening quote onward.
pub open spec fn unclosed_message(from: Seq<char>) -> Seq<char> {
    "could not find closing quotes when trying to parse `"@ + from + "`, expected `"@ + seq![
        from[0],
    ] + "`"@
}

/// The diagnostic for a quoted span that starts with `c`, which is no quote.
pub open spec fn unexpected_message(c: char) -> Seq<char> {
    "Expected a single or double quote, found "@ + seq![c]
        + " at position 0 when trying to parse a quoted string"@
}

/// The diagnostic for a quoted span asked of an empty input.
pub open spec fn nothing_message() -> Seq<char> {
    "expected quote, found nothing at position 0 when trying to parse a quoted string"@
}

/// `j` is where the quoted span at the start of `s` closes: the first later
/// occurrence of the opening quote character.
pub open spec fn closes_at(s: Seq<char>, j: int) -> bool {
    &&& 1 <= j < s.len()
    &&& s[j] == s[0]
    &&& forall|k: int| 1 <= k < j ==> #[trigger] s[k] != s[0]
}

/// Putting two prefixes in front of a token one after the other puts their
/// concatenation in front.
pub proof fn lemma_extend_extend(a: Seq<char>, b: Seq<char>, res: Scan)
    ensures
        extend(a, extend(b, res)) == extend(a + b, res),
{
    if let Ok((t, r)) = res {
        assert(a + (b + t) =~= (a + b) + t);
    }
}

/// Inside a span opened by `from[0]`, the scanner takes the characters up to
/// the first `from[0]` literally and then goes on outside quotes.
pub proof fn lemma_in_quote(s: Seq<char>, from: Seq<char>, n: int)
    requires
        from.len() > 0,
        0 <= n < s.len(),
        s[n] == from[0],
        forall|k: int| 0 <= k < n ==> #[trigger] s[k] != from[0],
    ensures
        field_from(s, Some(from)) == extend(s.take(n), chunk(s.skip(n + 1))),
    decreases n,
{
    if n == 0 {
        assert(s.drop_first() =~= s.skip(1));
        let res = chunk(s.skip(1));
        if let Ok((t, r)) = res {
            assert(s.take(0) + t =~= t);
        }
    } else {
        let d = s.drop_first();
        assert forall|k: int| 0 <= k < n - 1 implies #[trigger] d[k] != from[0] by {
            assert(d[k] == s[k + 1]);
        }
        lemma_in_quote(d, from, n - 1);
        assert(d.skip(n) =~= s.skip(n + 1));
        lemma_extend_extend(seq![s[0]], d.take(n - 1), chunk(s.skip(n + 1)));
        assert(seq![s[0]] + d.take(n - 1) =~= s.take(n));
    }
}

/// Inside a span opened by `from[0]`, a line without that character fails,
/// naming the span.
pub proof fn lemma_unclosed(s: Seq<char>, from: Seq<char>)
    requires
        from.len() > 0,
        forall|k: int| 0 <= k < s.len() ==> #[trigger] s[k] != from[0],
    ensures
        field_from(s, Some(from)) == Err::<(Seq<char>, Seq<char>), Seq<char>>(from),
    decreases s.len(),
{
    if s.len() > 0 {
        let d = s.drop_first();
        assert forall|k: int| 0 <= k < d.len() implies #[trigger] d[k] != from[0] by {
            assert(d[k] == s[k + 1]);
        }
        lemma_unclosed(d, from);
    }
}

} // verus!
