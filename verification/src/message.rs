//! The wire codec: structured protocol messages, their serialized
//! form, the parser, and the proof that parsing a serialized message
//! gives the message back.
//!
//! A wire line reads `[":" prefix SP] command [SP param]* [SP ":" trail]`:
//! an optional sender prefix, a command verb or numeric code, positional
//! parameters, and an optional free-text trail that may itself contain
//! spaces.

use vstd::prelude::*;

use crate::text::{
    lemma_join_cons, lemma_join_snoc, lemma_join_split, lemma_split_join, lemma_split_join_then,
    lemma_join_last, lemma_split_len, lemma_split_tokens_no_space, no_space, spec_join, spec_split,
    split_spaces,
};

verus! {

/// The mathematical shape of a protocol message.
pub struct MessageView {
    pub prefix: Option<Seq<char>>,
    pub command: Seq<char>,
    pub params: Seq<Seq<char>>,
    pub trail: Option<Seq<char>>,
}

/// True when `s` contains no carriage return.
pub open spec fn no_cr(s: Seq<char>) -> bool {
    forall|i: int| 0 <= i < s.len() ==> s[i] != '\r'
}

/// True when a token opens with the colon that marks a prefix or trail.
pub open spec fn starts_colon(t: Seq<char>) -> bool {
    t.len() > 0 && t[0] == ':'
}

/// True when `s` ends with a carriage return.
pub open spec fn ends_cr(s: Seq<char>) -> bool {
    s.len() > 0 && s[s.len() - 1] == '\r'
}

/// A syntactically valid message: the prefix and every parameter are
/// space-free tokens, no parameter opens with a colon, the command is a
/// nonempty space-free token not opening with a colon, and no field
/// holds a carriage return. Exactly these messages survive the wire
/// unchanged.
pub open spec fn wf_message(m: MessageView) -> bool {
    &&& match m.prefix {
        Some(p) => no_space(p) && no_cr(p),
        None => true,
    }
    &&& m.command.len() > 0
    &&& no_space(m.command)
    &&& no_cr(m.command)
    &&& m.command[0] != ':'
    &&& forall|i: int|
        0 <= i < m.params.len() ==> no_space(#[trigger] m.params[i]) && no_cr(m.params[i]) && !starts_colon(
            m.params[i],
        )
    &&& match m.trail {
        Some(t) => no_cr(t),
        None => true,
    }
}

/// The shape every parsed message has, and enough for the round
/// trip: prefix, command and parameters are
/// space-free, no parameter opens with a colon, the command opens
/// with one only under a prefix, the line's last field does not end
/// in a carriage return, and the whole is not empty.
pub open spec fn wf_parsed(m: MessageView) -> bool {
    &&& match m.prefix {
        Some(p) => no_space(p),
        None => !starts_colon(m.command),
    }
    &&& no_space(m.command)
    &&& forall|i: int|
        0 <= i < m.params.len() ==> no_space(#[trigger] m.params[i]) && !starts_colon(m.params[i])
    &&& match m.trail {
        Some(t) => !ends_cr(t),
        None => if m.params.len() > 0 {
            !ends_cr(m.params.last())
        } else {
            !ends_cr(m.command)
        },
    }
    &&& (m.prefix is None && m.params.len() == 0 && m.trail is None ==> m.command.len() > 0)
}

/// The space-separated tokens before any trail: the colon-marked
/// prefix if present, then the command, then the parameters.
pub open spec fn head_tokens(m: MessageView) -> Seq<Seq<char>> {
    match m.prefix {
        Some(p) => seq![seq![':'] + p] + seq![m.command] + m.params,
        None => seq![m.command] + m.params,
    }
}

/// The serialized form of a message, with no line terminator.
pub open spec fn spec_serialize(m: MessageView) -> Seq<char> {
    match m.trail {
        Some(t) => spec_join(head_tokens(m)) + seq![' ', ':'] + t,
        None => spec_join(head_tokens(m)),
    }
}

/// Trailing carriage returns are stripped before tokenising.
pub open spec fn strip_cr(s: Seq<char>) -> Seq<char>
    decreases s.len(),
{
    if s.len() > 0 && s[s.len() - 1] == '\r' {
        strip_cr(s.subrange(0, s.len() - 1))
    } else {
        s
    }
}

/// The positional parameters among the tokens after the command:
/// tokens taken left to right until one opens with a colon.
pub open spec fn spec_params_of(ws: Seq<Seq<char>>) -> Seq<Seq<char>>
    decreases ws.len(),
{
    if ws.len() == 0 {
        Seq::<Seq<char>>::empty()
    } else if starts_colon(ws[0]) {
        Seq::<Seq<char>>::empty()
    } else {
        seq![ws[0]] + spec_params_of(ws.subrange(1, ws.len() as int))
    }
}

/// The trail among the tokens after the command: the first token
/// opening with a colon, stripped of it, rejoined with every later
/// token.
pub open spec fn spec_trail_of(ws: Seq<Seq<char>>) -> Option<Seq<char>>
    decreases ws.len(),
{
    if ws.len() == 0 {
        None
    } else if starts_colon(ws[0]) {
        Some(
            spec_join(
                seq![ws[0].subrange(1, ws[0].len() as int)] + ws.subrange(1, ws.len() as int),
            ),
        )
    } else {
        spec_trail_of(ws.subrange(1, ws.len() as int))
    }
}

/// Assembling a message from the line's tokens: an optional prefix
/// token, then the command, which must be present, then parameters and
/// trail.
pub open spec fn parse_tokens(ws: Seq<Seq<char>>) -> Option<MessageView> {
    let rest = if ws.len() > 0 && starts_colon(ws[0]) {
        ws.subrange(1, ws.len() as int)
    } else {
        ws
    };
    let prefix = if ws.len() > 0 && starts_colon(ws[0]) {
        Some(ws[0].subrange(1, ws[0].len() as int))
    } else {
        None
    };
    if rest.len() == 0 {
        None
    } else {
        Some(
            MessageView {
                prefix,
                command: rest[0],
                params: spec_params_of(rest.subrange(1, rest.len() as int)),
                trail: spec_trail_of(rest.subrange(1, rest.len() as int)),
            },
        )
    }
}

/// What parsing a wire line yields: `None` on the empty line or on a
/// line holding only a prefix, a message otherwise.
pub open spec fn spec_parse(line: Seq<char>) -> Option<MessageView> {
    let s = strip_cr(line);
    if s.len() == 0 {
        None
    } else {
        parse_tokens(spec_split(s))
    }
}

/// Tokens that do not open with a colon are all parameters and leave
/// no trail.
proof fn lemma_params_no_trail(ps: Seq<Seq<char>>)
    requires
        forall|i: int| 0 <= i < ps.len() ==> !starts_colon(#[trigger] ps[i]),
    ensures
        spec_params_of(ps) == ps,
        spec_trail_of(ps) == None::<Seq<char>>,
    decreases ps.len(),
{
    if ps.len() == 0 {
        assert(spec_params_of(ps) =~= ps);
    } else {
        lemma_params_no_trail(ps.subrange(1, ps.len() as int));
        assert(seq![ps[0]] + ps.subrange(1, ps.len() as int) =~= ps);
    }
}

/// Parameter tokens followed by a colon-opened token: the parameters
/// are recovered and everything from the colon on becomes the trail.
proof fn lemma_params_then_trail(ps: Seq<Seq<char>>, rs: Seq<Seq<char>>)
    requires
        forall|i: int| 0 <= i < ps.len() ==> !starts_colon(#[trigger] ps[i]),
        rs.len() >= 1,
        starts_colon(rs[0]),
    ensures
        spec_params_of(ps + rs) == ps,
        spec_trail_of(ps + rs) == Some(
            spec_join(
                seq![rs[0].subrange(1, rs[0].len() as int)] + rs.subrange(1, rs.len() as int),
            ),
        ),
    decreases ps.len(),
{
    let ws = ps + rs;
    if ps.len() == 0 {
        assert(ws =~= rs);
        assert(spec_params_of(ws) =~= ps);
    } else {
        let pt = ps.subrange(1, ps.len() as int);
        lemma_params_then_trail(pt, rs);
        assert(ws.subrange(1, ws.len() as int) =~= pt + rs);
        assert(seq![ps[0]] + pt =~= ps);
    }
}

/// What the strip leaves never ends with a carriage return.
proof fn lemma_strip_cr_ends(s: Seq<char>)
    ensures
        !ends_cr(strip_cr(s)),
    decreases s.len(),
{
    if s.len() > 0 && s[s.len() - 1] == '\r' {
        lemma_strip_cr_ends(s.subrange(0, s.len() - 1));
    }
}

/// A split's last token ends as the string does, or is empty.
proof fn lemma_last_token(s: Seq<char>)
    requires
        !ends_cr(s),
    ensures
        !ends_cr(spec_split(s).last()),
{
    let ws = spec_split(s);
    lemma_split_len(s);
    lemma_join_split(s);
    if ws.len() == 1 {
        assert(ws.last() == s);
    } else {
        lemma_join_last(ws);
        let lt = ws.last();
        if lt.len() > 0 {
            assert(s[s.len() - 1] == lt[lt.len() - 1]);
        }
    }
}

/// Parameter tokens inherit being space-free and not opening with a
/// colon from the tokens they come from.
proof fn lemma_params_of_props(ws: Seq<Seq<char>>)
    requires
        forall|i: int| 0 <= i < ws.len() ==> no_space(#[trigger] ws[i]),
    ensures
        forall|i: int|
            0 <= i < spec_params_of(ws).len() ==> no_space(#[trigger] spec_params_of(ws)[i])
                && !starts_colon(spec_params_of(ws)[i]),
    decreases ws.len(),
{
    if ws.len() == 0 {
    } else if starts_colon(ws[0]) {
    } else {
        let tail = ws.subrange(1, ws.len() as int);
        lemma_params_of_props(tail);
        assert(forall|i: int|
            1 <= i < spec_params_of(ws).len() ==> #[trigger] spec_params_of(ws)[i]
                == spec_params_of(tail)[i - 1]);
    }
}

/// Where no token opens with a colon, every token is a parameter.
proof fn lemma_params_all_when_no_trail(ws: Seq<Seq<char>>)
    requires
        spec_trail_of(ws) is None,
    ensures
        spec_params_of(ws) == ws,
    decreases ws.len(),
{
    if ws.len() == 0 {
        assert(spec_params_of(ws) =~= ws);
    } else {
        lemma_params_all_when_no_trail(ws.subrange(1, ws.len() as int));
        assert(seq![ws[0]] + ws.subrange(1, ws.len() as int) =~= ws);
    }
}

/// The trail ends as the last token does, or with a space, or not at
/// all: never with a carriage return the tokens did not have.
proof fn lemma_trail_of_not_cr(ws: Seq<Seq<char>>)
    requires
        ws.len() >= 1 ==> !ends_cr(ws.last()),
    ensures
        match spec_trail_of(ws) {
            Some(t) => !ends_cr(t),
            None => true,
        },
    decreases ws.len(),
{
    if ws.len() == 0 {
    } else if starts_colon(ws[0]) {
        let head = ws[0].subrange(1, ws[0].len() as int);
        let inner = seq![head] + ws.subrange(1, ws.len() as int);
        let t = spec_join(inner);
        if ws.len() == 1 {
            assert(inner =~~= seq![head]);
            assert(t == head);
            if head.len() > 0 {
                assert(head[head.len() - 1] == ws[0][ws[0].len() - 1]);
            }
        } else {
            lemma_join_last(inner);
            assert(inner.last() == ws.last());
            let lt = inner.last();
            if lt.len() > 0 {
                assert(t[t.len() - 1] == lt[lt.len() - 1]);
            } else {
                assert(t[t.len() - 1] == ' ');
            }
        }
    } else {
        let tail = ws.subrange(1, ws.len() as int);
        if tail.len() >= 1 {
            assert(tail.last() == ws.last());
        }
        lemma_trail_of_not_cr(tail);
    }
}

/// The first token of a split keeps the string's first character when
/// that character is not a space.
proof fn lemma_split_first_char(s: Seq<char>)
    requires
        s.len() > 0,
        s[0] != ' ',
    ensures
        spec_split(s).len() >= 1,
        spec_split(s)[0] == seq![s[0]] + spec_split(s.subrange(1, s.len() as int))[0],
        spec_split(s).subrange(1, spec_split(s).len() as int) == spec_split(
            s.subrange(1, s.len() as int),
        ).subrange(1, spec_split(s.subrange(1, s.len() as int)).len() as int),
{
    lemma_split_len(s.subrange(1, s.len() as int));
    let rest = spec_split(s.subrange(1, s.len() as int));
    let whole = seq![seq![s[0]] + rest[0]] + rest.subrange(1, rest.len() as int);
    assert(spec_split(s) == whole);
    assert(whole.subrange(1, whole.len() as int) =~= rest.subrange(1, rest.len() as int));
}

/// Round-trip for every message of the parsed shape: parsing the
/// serialized form yields exactly the message back.
proof fn lemma_round_trip_core(m: MessageView)
    requires
        wf_parsed(m),
    ensures
        spec_parse(spec_serialize(m)) == Some(m),
{
    let s = spec_serialize(m);
    let heads = head_tokens(m);
    assert(heads.len() >= 1);
    assert(forall|i: int| 0 <= i < heads.len() ==> no_space(#[trigger] heads[i])) by {
        assert forall|i: int| 0 <= i < heads.len() implies no_space(#[trigger] heads[i]) by {
            match m.prefix {
                Some(p) => {
                    if i == 0 {
                        assert(heads[0] =~= seq![':'] + p);
                    } else if i == 1 {
                    } else {
                        assert(heads[i] == m.params[i - 2]);
                    }
                },
                None => {
                    if i == 0 {
                    } else {
                        assert(heads[i] == m.params[i - 1]);
                    }
                },
            }
        }
    }
    match m.trail {
        None => {
            assert(s == spec_join(heads));
            if heads.len() == 1 {
                assert(m.prefix is None && m.params.len() == 0);
                assert(s == m.command);
                assert(m.command.len() > 0);
                assert(!ends_cr(s));
            } else {
                lemma_join_last(heads);
                let lt = heads.last();
                if m.params.len() > 0 {
                    assert(lt == m.params.last());
                } else {
                    assert(lt == m.command);
                }
                assert(!ends_cr(lt));
                if lt.len() > 0 {
                    assert(s[s.len() - 1] == lt[lt.len() - 1]);
                } else {
                    assert(s[s.len() - 1] == ' ');
                }
                assert(!ends_cr(s));
            }
            assert(strip_cr(s) == s);
            lemma_split_join(heads);
            lemma_recover_message(m, heads, Seq::<Seq<char>>::empty());
            assert(spec_split(s) =~= heads + Seq::<Seq<char>>::empty());
        },
        Some(t) => {
            let r = seq![':'] + t;
            assert(s =~= spec_join(heads) + seq![' '] + r);
            assert(s.len() > 0);
            if t.len() > 0 {
                assert(s[s.len() - 1] == t[t.len() - 1]);
                assert(!ends_cr(s));
            } else {
                assert(s[s.len() - 1] == ':');
                assert(!ends_cr(s));
            }
            assert(strip_cr(s) == s);
            lemma_split_join_then(heads, r);
            let rs = spec_split(r);
            lemma_split_first_char(r);
            assert(starts_colon(rs[0]));
            lemma_recover_message(m, heads, rs);
        },
    }
}

/// Round-trip: parsing the serialized form of a syntactically valid
/// message yields exactly that message.
pub proof fn lemma_parse_serialize(m: MessageView)
    requires
        wf_message(m),
    ensures
        spec_parse(spec_serialize(m)) == Some(m),
{
    assert(wf_parsed(m)) by {
        match m.trail {
            Some(t) => {
                assert(no_cr(t));
            },
            None => {
                if m.params.len() > 0 {
                    assert(no_cr(m.params[m.params.len() - 1]));
                }
            },
        }
    }
    lemma_round_trip_core(m);
}

/// Every message a line parses to has the parsed shape.
pub proof fn lemma_parse_wf(line: Seq<char>)
    requires
        spec_parse(line) is Some,
    ensures
        wf_parsed(spec_parse(line)->0),
{
    let s = strip_cr(line);
    let ws = spec_split(s);
    let m = spec_parse(line)->0;
    assert(s.len() > 0);
    lemma_strip_cr_ends(line);
    lemma_split_tokens_no_space(s);
    lemma_split_len(s);
    lemma_join_split(s);
    lemma_last_token(s);
    let pre = ws.len() > 0 && starts_colon(ws[0]);
    let rest = if pre {
        ws.subrange(1, ws.len() as int)
    } else {
        ws
    };
    let base: int = if pre {
        1
    } else {
        0
    };
    assert(rest.len() >= 1);
    assert(forall|i: int| 0 <= i < rest.len() ==> rest[i] == ws[base + i]);
    if pre {
        let p = ws[0].subrange(1, ws[0].len() as int);
        assert(m.prefix == Some(p));
        assert(no_space(p)) by {
            assert(forall|j: int| 0 <= j < p.len() ==> p[j] == ws[0][j + 1]);
        }
    } else {
        assert(m.command == ws[0]);
        assert(!starts_colon(m.command));
    }
    assert(m.command == rest[0]);
    assert(no_space(m.command));
    let tail = rest.subrange(1, rest.len() as int);
    assert(forall|i: int| 0 <= i < tail.len() ==> tail[i] == ws[base + 1 + i]);
    assert(m.params == spec_params_of(tail));
    assert(m.trail == spec_trail_of(tail));
    lemma_params_of_props(tail);
    if tail.len() >= 1 {
        assert(tail.last() == ws.last());
    }
    lemma_trail_of_not_cr(tail);
    match m.trail {
        Some(t) => {},
        None => {
            lemma_params_all_when_no_trail(tail);
            if m.params.len() > 0 {
                assert(m.params.last() == ws.last());
            } else {
                assert(tail.len() == 0);
                assert(rest.len() == 1);
                assert(m.command == ws.last());
            }
        },
    }
    if m.prefix is None && m.params.len() == 0 && m.trail is None {
        assert(ws.len() == 1);
        assert(spec_join(ws) == ws[0]);
        assert(m.command == s);
    }
}

/// Format round-trip, the codec's invariant: re-serializing whatever a
/// line parsed to and parsing again yields the same message, so the
/// printable form is stable even on degenerate whitespace input.
pub proof fn lemma_reparse_stable(line: Seq<char>)
    requires
        spec_parse(line) is Some,
    ensures
        spec_parse(spec_serialize(spec_parse(line)->0)) == spec_parse(line),
{
    lemma_parse_wf(line);
    lemma_round_trip_core(spec_parse(line)->0);
}


/// Recovering a message from its split line: the head tokens, then
/// optionally the split of the colon-marked trail text.
proof fn lemma_recover_message(m: MessageView, heads: Seq<Seq<char>>, rs: Seq<Seq<char>>)
    requires
        wf_parsed(m),
        heads == head_tokens(m),
        match m.trail {
            Some(t) => rs == spec_split(seq![':'] + t),
            None => rs == Seq::<Seq<char>>::empty(),
        },
    ensures
        parse_tokens(heads + rs) == Some(m),
{
    let ws = heads + rs;
    if m.trail is Some {
        lemma_split_len(seq![':'] + m.trail->0);
        lemma_split_first_char(seq![':'] + m.trail->0);
    }
    match m.prefix {
        Some(p) => {
            assert(ws[0] =~= seq![':'] + p);
            assert(starts_colon(ws[0]));
            assert(ws[0].subrange(1, ws[0].len() as int) =~= p);
            let rest = ws.subrange(1, ws.len() as int);
            assert(rest =~= seq![m.command] + m.params + rs);
            assert(rest[0] == m.command);
            assert(rest.subrange(1, rest.len() as int) =~= m.params + rs);
            lemma_recover_tail(m, rest.subrange(1, rest.len() as int), rs);
        },
        None => {
            assert(ws[0] == m.command);
            assert(!starts_colon(ws[0]));
            assert(ws.subrange(1, ws.len() as int) =~= m.params + rs);
            lemma_recover_tail(m, ws.subrange(1, ws.len() as int), rs);
        },
    }
}

/// The serialized prefix: a colon, the prefix, a space.
pub open spec fn prefix_part(prefix: Option<Seq<char>>) -> Seq<char> {
    match prefix {
        Some(p) => seq![':'] + p + seq![' '],
        None => Seq::<char>::empty(),
    }
}

/// The serialized parameters: a space before each.
pub open spec fn params_part(ps: Seq<Seq<char>>) -> Seq<char>
    decreases ps.len(),
{
    if ps.len() == 0 {
        Seq::<char>::empty()
    } else {
        params_part(ps.drop_last()) + seq![' '] + ps.last()
    }
}

/// The serialized trail: a space, a colon, the text.
pub open spec fn trail_part(trail: Option<Seq<char>>) -> Seq<char> {
    match trail {
        Some(t) => seq![' ', ':'] + t,
        None => Seq::<char>::empty(),
    }
}

proof fn lemma_join_params(cmd: Seq<char>, ps: Seq<Seq<char>>)
    ensures
        spec_join(seq![cmd] + ps) == cmd + params_part(ps),
    decreases ps.len(),
{
    if ps.len() == 0 {
        assert(seq![cmd] + ps =~= seq![cmd]);
        assert(cmd + params_part(ps) =~= cmd);
    } else {
        let front = ps.drop_last();
        lemma_join_params(cmd, front);
        lemma_join_snoc(seq![cmd] + front, ps.last());
        assert((seq![cmd] + front).push(ps.last()) =~~= seq![cmd] + ps);
        assert(cmd + params_part(front) + seq![' '] + ps.last() =~= cmd + (params_part(front)
            + seq![' '] + ps.last()));
    }
}

/// The serialized form, read field by field: the prefix part, the
/// command, a space before each parameter, and the trail part.
pub proof fn lemma_serialize_parts(m: MessageView)
    ensures
        spec_serialize(m) == prefix_part(m.prefix) + m.command + params_part(m.params) + trail_part(
            m.trail,
        ),
{
    lemma_join_params(m.command, m.params);
    match m.prefix {
        Some(p) => {
            lemma_join_cons(seq![':'] + p, seq![m.command] + m.params);
            assert(head_tokens(m) =~~= seq![seq![':'] + p] + (seq![m.command] + m.params));
            assert(spec_join(head_tokens(m)) =~= prefix_part(m.prefix) + m.command + params_part(
                m.params,
            ));
        },
        None => {
            assert(head_tokens(m) == seq![m.command] + m.params);
            assert(spec_join(head_tokens(m)) =~= prefix_part(m.prefix) + m.command + params_part(
                m.params,
            ));
        },
    }
    match m.trail {
        Some(t) => {
            assert(spec_serialize(m) =~= prefix_part(m.prefix) + m.command + params_part(m.params)
                + trail_part(m.trail));
        },
        None => {
            assert(spec_serialize(m) =~= prefix_part(m.prefix) + m.command + params_part(m.params)
                + trail_part(m.trail));
        },
    }
}

/// Recovering parameters and trail from the tokens after the command.
proof fn lemma_recover_tail(m: MessageView, tail: Seq<Seq<char>>, rs: Seq<Seq<char>>)
    requires
        wf_parsed(m),
        tail == m.params + rs,
        match m.trail {
            Some(t) => rs == spec_split(seq![':'] + t),
            None => rs == Seq::<Seq<char>>::empty(),
        },
    ensures
        spec_params_of(tail) == m.params,
        spec_trail_of(tail) == m.trail,
{
    match m.trail {
        None => {
            assert(tail =~= m.params);
            lemma_params_no_trail(m.params);
        },
        Some(t) => {
            let r = seq![':'] + t;
            lemma_split_len(r);
            lemma_split_first_char(r);
            assert(starts_colon(rs[0]));
            lemma_params_then_trail(m.params, rs);
            let inner = seq![rs[0].subrange(1, rs[0].len() as int)] + rs.subrange(
                1,
                rs.len() as int,
            );
            let rt = spec_split(r.subrange(1, r.len() as int));
            assert(r.subrange(1, r.len() as int) =~= t);
            assert(rs[0].subrange(1, rs[0].len() as int) =~= rt[0]) by {
                assert(rs[0] == seq![r[0]] + rt[0]);
            }
            lemma_split_len(t);
            assert(inner =~= seq![rt[0]] + rt.subrange(1, rt.len() as int));
            assert(inner =~= spec_split(t));
            lemma_join_split(t);
        },
    }
}

/// Serialization is a pure function of the message value: two equal
/// messages serialize to the same text, so serializing twice yields
/// identical output.
pub proof fn lemma_serialize_pure(a: MessageView, b: MessageView)
    requires
        a == b,
    ensures
        spec_serialize(a) == spec_serialize(b),
{
}

/// Why a wire line yields no message.
#[derive(Debug, Clone, Copy, PartialEq, Eq, Structural)]
pub enum ParseError {
    /// The line is empty, or holds a prefix and nothing after it.
    MalformedMessage,
}

/// A protocol message: an optional sender prefix, a command verb or
/// numeric code, positional parameters, and an optional free-text
/// trail.
#[derive(Debug, Clone)]
pub struct IrcMessage {
    pub prefix: Option<String>,
    pub command: String,
    pub params: Vec<String>,
    pub trail: Option<String>,
}

impl View for IrcMessage {
    type V = MessageView;

    open spec fn view(&self) -> MessageView {
        MessageView {
            prefix: self.prefix.deep_view(),
            command: self.command@,
            params: self.params.deep_view(),
            trail: self.trail.deep_view(),
        }
    }
}

/// True when the token opens with the colon that marks a prefix or
/// trail on the wire.
fn opens_colon(t: &str) -> (b: bool)
    ensures
        b == starts_colon(t@),
{
    if t.unicode_len() == 0 {
        false
    } else {
        t.get_char(0) == ':'
    }
}

impl IrcMessage {
    /// Builds a message from its four fields.
    pub fn new(prefix: Option<&str>, command: &str, params: Vec<&str>, trail: Option<&str>) -> (m:
        IrcMessage)
        ensures
            m@ == (MessageView {
                prefix: prefix.deep_view(),
                command: command@,
                params: params.deep_view(),
                trail: trail.deep_view(),
            }),
    {
        let prefix_owned: Option<String> = match prefix {
            Some(p) => Some(p.to_owned()),
            None => None,
        };
        let command_owned = command.to_owned();
        let mut ps: Vec<String> = Vec::new();
        let mut i: usize = 0;
        proof {
            assert(ps.deep_view() =~~= params.deep_view().subrange(0, 0));
        }
        while i < params.len()
            invariant
                i <= params.len(),
                ps.deep_view() == params.deep_view().subrange(0, i as int),
            decreases params.len() - i,
        {
            let p = params[i].to_owned();
            let ghost prior = ps.deep_view();
            ps.push(p);
            proof {
                assert(ps.deep_view() =~~= prior.push(p@));
                assert(prior.push(p@) =~~= params.deep_view().subrange(0, i + 1));
            }
            i = i + 1;
        }
        let trail_owned: Option<String> = match trail {
            Some(t) => Some(t.to_owned()),
            None => None,
        };
        let m = IrcMessage {
            prefix: prefix_owned,
            command: command_owned,
            params: ps,
            trail: trail_owned,
        };
        proof {
            assert(m@.params =~~= params.deep_view());
        }
        m
    }

    /// An equal copy of the message.
    pub fn duplicate(&self) -> (m: IrcMessage)
        ensures
            m@ == self@,
    {
        let prefix: Option<String> = match &self.prefix {
            Some(p) => Some(p.clone()),
            None => None,
        };
        let mut params: Vec<String> = Vec::new();
        let mut i: usize = 0;
        proof {
            assert(params.deep_view() =~~= self@.params.subrange(0, 0));
        }
        while i < self.params.len()
            invariant
                i <= self.params.len(),
                params.deep_view() == self@.params.subrange(0, i as int),
            decreases self.params.len() - i,
        {
            let p = self.params[i].clone();
            let ghost prior = params.deep_view();
            params.push(p);
            proof {
                assert(params.deep_view() =~~= prior.push(p@));
                assert(prior.push(p@) =~~= self@.params.subrange(0, i + 1));
            }
            i = i + 1;
        }
        let trail: Option<String> = match &self.trail {
            Some(t) => Some(t.clone()),
            None => None,
        };
        let m = IrcMessage { prefix, command: self.command.clone(), params, trail };
        proof {
            assert(m@.params =~~= self@.params);
            assert(m@.prefix == self@.prefix);
            assert(m@.trail == self@.trail);
        }
        m
    }

    /// Serializes the message to its wire form, without a line
    /// terminator.
    pub fn to_string(&self) -> (r: String)
        ensures
            r@ == spec_serialize(self@),
    {
        proof {
            reveal_strlit(":");
            reveal_strlit(" ");
            reveal_strlit(" :");
        }
        let mut out: String = String::new();
        match &self.prefix {
            Some(p) => {
                out.append(":");
                out.append(p.as_str());
                out.append(" ");
                proof {
                    assert(out@ =~= prefix_part(self@.prefix));
                }
            },
            None => {
                proof {
                    assert(out@ =~= prefix_part(self@.prefix));
                }
            },
        }
        out.append(self.command.as_str());
        let mut i: usize = 0;
        proof {
            assert(self@.params.subrange(0, 0) =~~= Seq::<Seq<char>>::empty());
            assert(out@ =~= prefix_part(self@.prefix) + self@.command + params_part(
                self@.params.subrange(0, 0),
            ));
        }
        while i < self.params.len()
            invariant
                i <= self.params.len(),
                out@ == prefix_part(self@.prefix) + self@.command + params_part(
                    self@.params.subrange(0, i as int),
                ),
            decreases self.params.len() - i,
        {
            out.append(" ");
            out.append(self.params[i].as_str());
            proof {
                reveal_strlit(" ");
                let taken = self@.params.subrange(0, i + 1);
                assert(taken.drop_last() =~~= self@.params.subrange(0, i as int));
                assert(taken.last() == self@.params[i as int]);
                assert(self@.params[i as int] == self.params[i as int]@);
                assert(out@ =~= prefix_part(self@.prefix) + self@.command + params_part(taken));
            }
            i = i + 1;
        }
        proof {
            assert(self@.params.subrange(0, self.params.len() as int) =~~= self@.params);
        }
        match &self.trail {
            Some(t) => {
                out.append(" :");
                out.append(t.as_str());
                proof {
                    assert(out@ =~= prefix_part(self@.prefix) + self@.command + params_part(
                        self@.params,
                    ) + trail_part(self@.trail));
                }
            },
            None => {
                proof {
                    assert(out@ =~= prefix_part(self@.prefix) + self@.command + params_part(
                        self@.params,
                    ) + trail_part(self@.trail));
                }
            },
        }
        proof {
            lemma_serialize_parts(self@);
        }
        out
    }

    /// Serializes the message and appends the line terminator the
    /// transport writes.
    pub fn to_wire_line(&self) -> (r: String)
        ensures
            r@ == spec_serialize(self@) + seq!['\r', '\n'],
    {
        let mut out = self.to_string();
        out.append("\r\n");
        proof {
            reveal_strlit("\r\n");
            assert(out@ =~= spec_serialize(self@) + seq!['\r', '\n']);
        }
        out
    }

    /// Parses one wire line, stripped of its newline; a trailing
    /// carriage return is tolerated. Fails exactly on the lines the
    /// grammar refuses: the empty line and a lone prefix.
    pub fn parse(s: &str) -> (r: Result<IrcMessage, ParseError>)
        ensures
            match r {
                Ok(m) => spec_parse(s@) == Some(m@),
                Err(e) => spec_parse(s@) is None && e == ParseError::MalformedMessage,
            },
    {
        let n = s.unicode_len();
        let mut end: usize = n;
        proof {
            assert(s@.subrange(0, n as int) =~= s@);
        }
        while end > 0 && s.get_char(end - 1) == '\r'
            invariant
                end <= n,
                n == s@.len(),
                strip_cr(s@) == strip_cr(s@.subrange(0, end as int)),
            decreases end,
        {
            proof {
                let cur = s@.subrange(0, end as int);
                assert(cur[cur.len() - 1] == '\r');
                assert(cur.subrange(0, cur.len() - 1) =~= s@.subrange(0, end - 1));
            }
            end = end - 1;
        }
        proof {
            assert(strip_cr(s@.subrange(0, end as int)) == s@.subrange(0, end as int));
        }
        if end == 0 {
            return Err(ParseError::MalformedMessage);
        }
        let stripped = s.substring_char(0, end);
        let tokens = split_spaces(stripped);
        let ghost ws = spec_split(strip_cr(s@));
        proof {
            lemma_split_len(stripped@);
        }
        let mut idx: usize = 0;
        let mut prefix: Option<String> = None;
        if opens_colon(tokens[0].as_str()) {
            let t0 = tokens[0].as_str();
            prefix = Some(t0.substring_char(1, t0.unicode_len()).to_owned());
            idx = 1;
        }
        let ghost rest = if idx == 1 {
            ws.subrange(1, ws.len() as int)
        } else {
            ws
        };
        if idx >= tokens.len() {
            proof {
                assert(rest.len() == 0);
            }
            return Err(ParseError::MalformedMessage);
        }
        let command = tokens[idx].clone();
        proof {
            assert(command@ == rest[0]);
        }
        let base: usize = idx + 1;
        let ghost tail = rest.subrange(1, rest.len() as int);
        proof {
            assert(tail.len() == tokens.len() - base);
            assert(forall|k: int|
                0 <= k < tail.len() ==> #[trigger] tail[k] == tokens.deep_view()[base + k]);
        }
        let mut params: Vec<String> = Vec::new();
        let mut j: usize = base;
        proof {
            assert(tail.subrange(0, tail.len() as int) =~~= tail);
            assert(params.deep_view() =~~= Seq::<Seq<char>>::empty());
        }
        while j < tokens.len() && !opens_colon(tokens[j].as_str())
            invariant
                base <= j <= tokens.len(),
                tokens.deep_view() == ws,
                tail.len() == tokens.len() - base,
                forall|k: int|
                    0 <= k < tail.len() ==> #[trigger] tail[k] == tokens.deep_view()[base + k],
                spec_params_of(tail) == params.deep_view() + spec_params_of(
                    tail.subrange(j - base, tail.len() as int),
                ),
                spec_trail_of(tail) == spec_trail_of(tail.subrange(j - base, tail.len() as int)),
            decreases tokens.len() - j,
        {
            let ghost k = j - base;
            let ghost suffix = tail.subrange(k as int, tail.len() as int);
            let p = tokens[j].clone();
            let ghost prior = params.deep_view();
            params.push(p);
            proof {
                assert(suffix[0] == tail[k as int]);
                assert(!starts_colon(suffix[0]));
                assert(suffix.subrange(1, suffix.len() as int) =~~= tail.subrange(
                    k + 1,
                    tail.len() as int,
                ));
                assert(params.deep_view() =~~= prior.push(p@));
                assert(prior + (seq![suffix[0]] + spec_params_of(
                    tail.subrange(k + 1, tail.len() as int),
                )) =~~= prior.push(p@) + spec_params_of(tail.subrange(k + 1, tail.len() as int)));
            }
            j = j + 1;
        }
        let trail: Option<String>;
        let ghost k = j - base;
        let ghost suffix = tail.subrange(k as int, tail.len() as int);
        if j < tokens.len() {
            let tj = tokens[j].as_str();
            let mut tr = tj.substring_char(1, tj.unicode_len()).to_owned();
            let ghost inner = seq![tail[k as int].subrange(1, tail[k as int].len() as int)]
                + tail.subrange(k + 1, tail.len() as int);
            proof {
                assert(starts_colon(suffix[0]));
                assert(suffix.subrange(1, suffix.len() as int) =~~= tail.subrange(
                    k + 1,
                    tail.len() as int,
                ));
                assert(inner =~~= seq![suffix[0].subrange(1, suffix[0].len() as int)]
                    + suffix.subrange(1, suffix.len() as int));
                assert(spec_trail_of(suffix) == Some(spec_join(inner)));
                assert(inner.subrange(0, 1) =~~= seq![tr@]);
                assert(spec_join(seq![tr@]) == tr@);
            }
            let mut j2: usize = j + 1;
            while j2 < tokens.len()
                invariant
                    j < j2 <= tokens.len(),
                    tokens.deep_view() == ws,
                    tail.len() == tokens.len() - base,
                    base <= j < tokens.len(),
                    k == j - base,
                    forall|kk: int|
                        0 <= kk < tail.len() ==> #[trigger] tail[kk] == tokens.deep_view()[base
                            + kk],
                    inner.len() == tokens.len() - j,
                    inner == seq![tail[k as int].subrange(1, tail[k as int].len() as int)]
                        + tail.subrange(k + 1, tail.len() as int),
                    tr@ == spec_join(inner.subrange(0, j2 - j)),
                decreases tokens.len() - j2,
            {
                tr.append(" ");
                tr.append(tokens[j2].as_str());
                proof {
                    reveal_strlit(" ");
                    let took = inner.subrange(0, j2 - j);
                    assert(inner[j2 - j] == tail[k + (j2 - j)]);
                    assert(inner[j2 - j] == tokens.deep_view()[j2 as int]);
                    lemma_join_snoc(took, inner[j2 - j]);
                    assert(took.push(inner[j2 - j]) =~~= inner.subrange(0, j2 - j + 1));
                    assert(tr@ =~= spec_join(inner.subrange(0, j2 - j + 1)));
                }
                j2 = j2 + 1;
            }
            proof {
                assert(inner.subrange(0, inner.len() as int) =~~= inner);
            }
            trail = Some(tr);
        } else {
            proof {
                assert(suffix.len() == 0);
            }
            trail = None;
        }
        let m = IrcMessage { prefix, command, params, trail };
        proof {
            let parsed = parse_tokens(ws)->0;
            assert(m@.prefix == parsed.prefix) by {
                if idx == 1 {
                    assert(ws[0].subrange(1, ws[0].len() as int) == m@.prefix->0);
                }
            }
            assert(m@.command == parsed.command);
            assert(m@.params == parsed.params) by {
                assert(rest.subrange(1, rest.len() as int) == tail);
                assert(params.deep_view() + Seq::<Seq<char>>::empty() =~~= params.deep_view());
            }
            assert(m@.trail == parsed.trail);
        }
        Ok(m)
    }
}

impl core::str::FromStr for IrcMessage {
    type Err = ParseError;

    fn from_str(s: &str) -> Result<IrcMessage, ParseError> {
        IrcMessage::parse(s)
    }
}

} // verus!
