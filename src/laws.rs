//! Laws of the tokenizer, stated over the model that `tokenize` and
//! `ParsedCommand::parse_command` are proved against.
use vstd::prelude::*;

use crate::model::{chunk, extend, field_from, is_quote, lemma_extend_extend, tokens};
use crate::text::white_space;

verus! {

/// A line made of whitespace alone, the empty line included, has no tokens
/// and is no error.
pub proof fn lemma_blank_line_has_no_tokens(s: Seq<char>)
    requires
        forall|i: int| 0 <= i < s.len() ==> white_space(#[trigger] s[i]),
    ensures
        tokens(s) == Ok::<Seq<Seq<char>>, Seq<char>>(Seq::empty()),
    decreases s.len(),
{
    if s.len() > 0 {
        let d = s.drop_first();
        assert forall|i: int| 0 <= i < d.len() implies white_space(#[trigger] d[i]) by {
            assert(d[i] == s[i + 1]);
        }
        lemma_blank_line_has_no_tokens(d);
    }
}

/// The fields of `s` between runs of whitespace, empty fields dropped, where
/// `cur` is the part of the current field read before `s`.
pub open spec fn split_fields(s: Seq<char>, cur: Seq<char>) -> Seq<Seq<char>>
    decreases s.len(),
{
    if s.len() == 0 {
        if cur.len() == 0 {
            Seq::empty()
        } else {
            seq![cur]
        }
    } else if white_space(s[0]) {
        (if cur.len() == 0 {
            Seq::empty()
        } else {
            seq![cur]
        }) + split_fields(s.drop_first(), Seq::empty())
    } else {
        split_fields(s.drop_first(), cur.push(s[0]))
    }
}

/// `s` split on runs of whitespace, with empty fields dropped.
pub open spec fn split_whitespace(s: Seq<char>) -> Seq<Seq<char>> {
    split_fields(s, Seq::empty())
}

/// Without quotes, the first field is the run of characters up to the first
/// whitespace, and splitting goes on from there with that run read.
proof fn lemma_unquoted_chunk(s: Seq<char>, cur: Seq<char>)
    requires
        forall|i: int| 0 <= i < s.len() ==> !is_quote(#[trigger] s[i]),
    ensures
        chunk(s) matches Ok((t, r)) && split_fields(s, cur) == split_fields(r, cur + t) && (
        r.len() == 0 || white_space(r[0])) && (forall|i: int|
            0 <= i < r.len() ==> !is_quote(#[trigger] r[i])) && r.len() <= s.len() && (s.len() > 0
            && !white_space(s[0]) ==> t.len() > 0),
    decreases s.len(),
{
    if s.len() == 0 || white_space(s[0]) {
        assert(cur + Seq::<char>::empty() =~= cur);
    } else {
        let c = s[0];
        let d = s.drop_first();
        assert forall|i: int| 0 <= i < d.len() implies !is_quote(#[trigger] d[i]) by {
            assert(d[i] == s[i + 1]);
        }
        lemma_unquoted_chunk(d, cur.push(c));
        if let Ok((t, r)) = chunk(d) {
            assert(cur + (seq![c] + t) =~= cur.push(c) + t);
        }
    }
}

/// Without quotes, tokenizing is splitting on runs of whitespace.
pub proof fn lemma_unquoted_line_splits(s: Seq<char>)
    requires
        forall|i: int| 0 <= i < s.len() ==> !is_quote(#[trigger] s[i]),
    ensures
        tokens(s) == Ok::<Seq<Seq<char>>, Seq<char>>(split_whitespace(s)),
    decreases s.len(),
{
    if s.len() > 0 {
        let d = s.drop_first();
        assert forall|i: int| 0 <= i < d.len() implies !is_quote(#[trigger] d[i]) by {
            assert(d[i] == s[i + 1]);
        }
        if white_space(s[0]) {
            lemma_unquoted_line_splits(d);
            assert(Seq::<Seq<char>>::empty() + split_fields(d, Seq::empty()) =~= split_fields(
                d,
                Seq::empty(),
            ));
        } else {
            lemma_unquoted_chunk(s, Seq::empty());
            if let Ok((t, r)) = chunk(s) {
                assert(Seq::<char>::empty() + t =~= t);
                if r.len() == 0 {
                    assert(seq![t] + Seq::<Seq<char>>::empty() =~= seq![t]);
                } else {
                    let rd = r.drop_first();
                    assert forall|i: int| 0 <= i < rd.len() implies !is_quote(#[trigger] rd[i]) by {
                        assert(rd[i] == r[i + 1]);
                    }
                    lemma_unquoted_line_splits(rd);
                    assert(tokens(r) == tokens(rd));
                    assert(split_fields(r, t) == seq![t] + split_fields(rd, Seq::empty()));
                    assert(split_fields(s, Seq::empty()) == split_fields(r, t));
                }
            }
        }
    }
}

/// The body of a double-quoted span that reads back as `t`: each `"` of `t`
/// closes the span, stands alone in single quotes, and the span reopens.
pub open spec fn escape_double(t: Seq<char>) -> Seq<char>
    decreases t.len(),
{
    if t.len() == 0 {
        Seq::empty()
    } else {
        (if t[0] == '"' {
            seq!['"', '\'', '"', '\'', '"']
        } else {
            seq![t[0]]
        }) + escape_double(t.drop_first())
    }
}

/// `t` written as one quoted field.
pub open spec fn requote(t: Seq<char>) -> Seq<char> {
    seq!['"'] + escape_double(t) + seq!['"']
}

/// The fields `fs` joined with single spaces.
pub open spec fn join_spaced(fs: Seq<Seq<char>>) -> Seq<char>
    decreases fs.len(),
{
    if fs.len() == 0 {
        Seq::empty()
    } else if fs.len() == 1 {
        fs[0]
    } else {
        fs[0] + seq![' '] + join_spaced(fs.drop_first())
    }
}

/// Inside a double-quoted span, an escaped `t` and the closing quote read back
/// as `t`, and scanning goes on outside quotes.
proof fn lemma_escaped_body(t: Seq<char>, r: Seq<char>, from: Seq<char>)
    requires
        from.len() > 0,
        from[0] == '"',
    ensures
        field_from(escape_double(t) + seq!['"'] + r, Some(from)) == extend(t, chunk(r)),
    decreases t.len(),
{
    let s = escape_double(t) + seq!['"'] + r;
    if t.len() == 0 {
        assert(s =~= seq!['"'] + r);
        assert(s.drop_first() =~= r);
        if let Ok((u, rest)) = chunk(r) {
            assert(t + u =~= u);
        }
    } else {
        let c = t[0];
        let td = t.drop_first();
        let tail = escape_double(td) + seq!['"'] + r;
        lemma_escaped_body(td, r, from);
        if c == '"' {
            let s1 = seq!['\'', '"', '\'', '"'] + tail;
            let s2 = seq!['"', '\'', '"'] + tail;
            let s3 = seq!['\'', '"'] + tail;
            let s4 = seq!['"'] + tail;
            assert(s =~= seq!['"'] + s1);
            assert(s.drop_first() =~= s1);
            assert(s1.drop_first() =~= s2);
            assert(s2.drop_first() =~= s3);
            assert(s3.drop_first() =~= s4);
            assert(s4.drop_first() =~= tail);
            lemma_escaped_body(td, r, s4);
            assert(field_from(s4, None) == field_from(tail, Some(s4)));
            assert(field_from(s3, Some(s1)) == field_from(s4, None));
            assert(field_from(s2, Some(s1)) == extend(seq!['"'], field_from(s3, Some(s1))));
            assert(field_from(s1, None) == field_from(s2, Some(s1)));
            assert(field_from(s, Some(from)) == field_from(s1, None));
        } else {
            assert(s =~= seq![c] + tail);
            assert(s.drop_first() =~= tail);
        }
        lemma_extend_extend(seq![c], td, chunk(r));
        assert(seq![c] + td =~= t);
    }
}

/// A quoted field followed by whitespace or the end of the line reads back as
/// its token, and leaves that whitespace.
proof fn lemma_requote_chunk(t: Seq<char>, r: Seq<char>)
    requires
        r.len() == 0 || white_space(r[0]),
    ensures
        chunk(requote(t) + r) == Ok::<(Seq<char>, Seq<char>), Seq<char>>((t, r)),
{
    let s = requote(t) + r;
    assert(s =~= seq!['"'] + (escape_double(t) + seq!['"'] + r));
    assert(s.drop_first() =~= escape_double(t) + seq!['"'] + r);
    assert(s[0] == '"');
    assert(!white_space('"'));
    assert(chunk(s) == field_from(s.drop_first(), Some(s)));
    lemma_escaped_body(t, r, s);
    if r.len() == 0 {
        assert(r =~= Seq::<char>::empty());
    }
    assert(chunk(r) == Ok::<(Seq<char>, Seq<char>), Seq<char>>((Seq::empty(), r)));
    assert(t + Seq::<char>::empty() =~= t);
}

/// Quoting each token and joining them with single spaces gives a line whose
/// tokens are the tokens quoted: whatever the tokens hold, whitespace and
/// quotes of either kind included.
pub proof fn lemma_requoted_tokens_round_trip(ts: Seq<Seq<char>>)
    ensures
        tokens(join_spaced(ts.map_values(|t: Seq<char>| requote(t)))) == Ok::<
            Seq<Seq<char>>,
            Seq<char>,
        >(ts),
    decreases ts.len(),
{
    let qs = ts.map_values(|t: Seq<char>| requote(t));
    if ts.len() == 0 {
        assert(ts =~= Seq::<Seq<char>>::empty());
    } else if ts.len() == 1 {
        let line = join_spaced(qs);
        assert(line == requote(ts[0]));
        lemma_requote_chunk(ts[0], Seq::empty());
        assert(requote(ts[0]) + Seq::<char>::empty() =~= requote(ts[0]));
        assert(line[0] == '"');
        assert(!white_space('"'));
        assert(tokens(Seq::<char>::empty()) == Ok::<Seq<Seq<char>>, Seq<char>>(Seq::empty()));
        assert(seq![ts[0]] + Seq::<Seq<char>>::empty() =~= ts);
    } else if ts.len() > 1 {
        let rest = ts.drop_first();
        let j = join_spaced(rest.map_values(|t: Seq<char>| requote(t)));
        assert(qs.drop_first() =~= rest.map_values(|t: Seq<char>| requote(t)));
        let line = join_spaced(qs);
        assert(line == qs[0] + seq![' '] + j);
        let r = seq![' '] + j;
        assert(line =~= requote(ts[0]) + r);
        lemma_requote_chunk(ts[0], r);
        lemma_requoted_tokens_round_trip(rest);
        assert(r.drop_first() =~= j);
        assert(tokens(r) == tokens(j));
        assert(line[0] == '"');
        assert(!white_space('"'));
        assert(white_space(' '));
        assert(seq![ts[0]] + rest =~= ts);
    }
}

} // verus!
