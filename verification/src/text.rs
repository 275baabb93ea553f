//! Splitting a line on single spaces and joining tokens back, the
//! tokenisation underneath the wire codec, with the facts that make
//! the codec round-trip: join inverts split, and split inverts join
//! on space-free tokens.

use vstd::prelude::*;

verus! {

/// True when `s` contains no space character.
pub open spec fn no_space(s: Seq<char>) -> bool {
    forall|i: int| 0 <= i < s.len() ==> s[i] != ' '
}

/// Splitting on every single space, as the wire grammar asks: the
/// result always holds at least one token, and an empty token marks
/// an adjacent, leading or trailing separator.
pub open spec fn spec_split(s: Seq<char>) -> Seq<Seq<char>>
    decreases s.len(),
{
    if s.len() == 0 {
        seq![Seq::<char>::empty()]
    } else if s[0] == ' ' {
        seq![Seq::<char>::empty()] + spec_split(s.subrange(1, s.len() as int))
    } else {
        let rest = spec_split(s.subrange(1, s.len() as int));
        seq![seq![s[0]] + rest[0]] + rest.subrange(1, rest.len() as int)
    }
}

/// Joining tokens with single spaces.
pub open spec fn spec_join(ts: Seq<Seq<char>>) -> Seq<char>
    decreases ts.len(),
{
    if ts.len() == 0 {
        Seq::<char>::empty()
    } else if ts.len() == 1 {
        ts[0]
    } else {
        ts[0] + seq![' '] + spec_join(ts.subrange(1, ts.len() as int))
    }
}

/// A split never comes back empty.
pub proof fn lemma_split_len(s: Seq<char>)
    ensures
        spec_split(s).len() >= 1,
    decreases s.len(),
{
    if s.len() == 0 {
    } else if s[0] == ' ' {
        lemma_split_len(s.subrange(1, s.len() as int));
    } else {
        lemma_split_len(s.subrange(1, s.len() as int));
    }
}

/// A token without spaces splits into itself alone.
pub proof fn lemma_split_no_space(t: Seq<char>)
    requires
        no_space(t),
    ensures
        spec_split(t) == seq![t],
    decreases t.len(),
{
    if t.len() == 0 {
        assert(t =~= Seq::<char>::empty());
    } else {
        let tail = t.subrange(1, t.len() as int);
        lemma_split_no_space(tail);
        let rest = spec_split(tail);
        assert(rest == seq![tail]);
        assert(seq![t[0]] + rest[0] =~= t);
        assert(rest.subrange(1, rest.len() as int) =~= Seq::<Seq<char>>::empty());
        assert(spec_split(t) =~= seq![t]);
    }
}

/// A space-free token, a space, then anything: the split is the token
/// followed by the split of the remainder.
pub proof fn lemma_split_token_space(t: Seq<char>, r: Seq<char>)
    requires
        no_space(t),
    ensures
        spec_split(t + seq![' '] + r) == seq![t] + spec_split(r),
    decreases t.len(),
{
    let s = t + seq![' '] + r;
    if t.len() == 0 {
        assert(s[0] == ' ');
        assert(s.subrange(1, s.len() as int) =~= r);
        assert(t =~= Seq::<char>::empty());
        assert(seq![Seq::<char>::empty()] + spec_split(r) =~~= seq![t] + spec_split(r));
    } else {
        let tail = t.subrange(1, t.len() as int);
        assert(s[0] == t[0]);
        assert(s[0] != ' ');
        assert(s.subrange(1, s.len() as int) =~= tail + seq![' '] + r);
        lemma_split_token_space(tail, r);
        let rest = spec_split(tail + seq![' '] + r);
        assert(rest == seq![tail] + spec_split(r));
        lemma_split_len(r);
        assert(rest[0] == tail);
        assert(seq![s[0]] + rest[0] =~= t);
        assert(rest.subrange(1, rest.len() as int) =~= spec_split(r));
        assert(spec_split(s) =~= seq![t] + spec_split(r));
    }
}

/// Joining what a split produced gives the string back, whatever it held.
pub proof fn lemma_join_split(s: Seq<char>)
    ensures
        spec_join(spec_split(s)) == s,
    decreases s.len(),
{
    if s.len() == 0 {
    } else {
        let tail = s.subrange(1, s.len() as int);
        lemma_join_split(tail);
        lemma_split_len(tail);
        let rest = spec_split(tail);
        if s[0] == ' ' {
            let ts = seq![Seq::<char>::empty()] + rest;
            assert(ts.len() >= 2);
            assert(ts.subrange(1, ts.len() as int) =~= rest);
            assert(spec_join(ts) =~= s);
        } else {
            let ts = seq![seq![s[0]] + rest[0]] + rest.subrange(1, rest.len() as int);
            if rest.len() == 1 {
                assert(ts.len() == 1);
                assert(spec_join(rest) == rest[0]);
                assert(spec_join(ts) == seq![s[0]] + rest[0]);
                assert(spec_join(ts) =~= s);
            } else {
                assert(ts.len() >= 2);
                assert(ts.subrange(1, ts.len() as int) =~= rest.subrange(1, rest.len() as int));
                assert(spec_join(rest) == rest[0] + seq![' '] + spec_join(
                    rest.subrange(1, rest.len() as int),
                ));
                assert(spec_join(ts) == ts[0] + seq![' '] + spec_join(
                    ts.subrange(1, ts.len() as int),
                ));
                assert(ts[0] == seq![s[0]] + rest[0]);
                assert(spec_join(ts) =~= seq![s[0]] + spec_join(rest));
                assert(spec_join(rest) == tail);
                assert(seq![s[0]] + tail =~= s);
            }
        }
    }
}

/// Splitting what a join produced gives the tokens back, provided none
/// of them held a space.
pub proof fn lemma_split_join(ts: Seq<Seq<char>>)
    requires
        ts.len() >= 1,
        forall|i: int| 0 <= i < ts.len() ==> no_space(#[trigger] ts[i]),
    ensures
        spec_split(spec_join(ts)) == ts,
    decreases ts.len(),
{
    if ts.len() == 1 {
        lemma_split_no_space(ts[0]);
        assert(seq![ts[0]] =~= ts);
    } else {
        let rest = ts.subrange(1, ts.len() as int);
        lemma_split_join(rest);
        lemma_split_token_space(ts[0], spec_join(rest));
        assert(seq![ts[0]] + rest =~= ts);
    }
}

/// Joining one token in front: the token, a space, then the rest.
pub proof fn lemma_join_cons(x: Seq<char>, ts: Seq<Seq<char>>)
    requires
        ts.len() >= 1,
    ensures
        spec_join(seq![x] + ts) == x + seq![' '] + spec_join(ts),
{
    let whole = seq![x] + ts;
    assert(whole.len() >= 2);
    assert(whole.subrange(1, whole.len() as int) =~= ts);
}

/// Joining one token at the back: the rest, a space, then the token.
pub proof fn lemma_join_snoc(ts: Seq<Seq<char>>, x: Seq<char>)
    requires
        ts.len() >= 1,
    ensures
        spec_join(ts.push(x)) == spec_join(ts) + seq![' '] + x,
    decreases ts.len(),
{
    let whole = ts.push(x);
    if ts.len() == 1 {
        assert(whole.subrange(1, whole.len() as int) =~= seq![x]);
        assert(spec_join(seq![x]) == x);
        assert(spec_join(whole) == ts[0] + seq![' '] + x);
    } else {
        let rest = ts.subrange(1, ts.len() as int);
        lemma_join_snoc(rest, x);
        assert(whole.subrange(1, whole.len() as int) =~= rest.push(x));
        assert(spec_join(ts) + seq![' '] + x =~= ts[0] + seq![' '] + (spec_join(rest) + seq![' ']
            + x));
    }
}

/// Every token a split produces is space-free.
pub proof fn lemma_split_tokens_no_space(s: Seq<char>)
    ensures
        forall|i: int| 0 <= i < spec_split(s).len() ==> no_space(#[trigger] spec_split(s)[i]),
    decreases s.len(),
{
    if s.len() == 0 {
    } else {
        let tail = s.subrange(1, s.len() as int);
        lemma_split_tokens_no_space(tail);
        lemma_split_len(tail);
        let rest = spec_split(tail);
        if s[0] == ' ' {
            assert(forall|i: int|
                1 <= i < spec_split(s).len() ==> #[trigger] spec_split(s)[i] == rest[i - 1]);
        } else {
            assert(no_space(seq![s[0]] + rest[0])) by {
                assert(forall|j: int| 1 <= j < (seq![s[0]] + rest[0]).len() ==> (seq![s[0]]
                    + rest[0])[j] == rest[0][j - 1]);
            }
            assert(forall|i: int|
                1 <= i < spec_split(s).len() ==> #[trigger] spec_split(s)[i] == rest[i]);
        }
    }
}

/// Joining ends with the last token, after a space.
pub proof fn lemma_join_last(ts: Seq<Seq<char>>)
    requires
        ts.len() >= 2,
    ensures
        spec_join(ts) == spec_join(ts.drop_last()) + seq![' '] + ts.last(),
{
    lemma_join_snoc(ts.drop_last(), ts.last());
    assert(ts.drop_last().push(ts.last()) =~~= ts);
}

/// Joined space-free tokens, a space, then anything: the split is the
/// tokens followed by the split of the remainder.
pub proof fn lemma_split_join_then(ts: Seq<Seq<char>>, r: Seq<char>)
    requires
        ts.len() >= 1,
        forall|i: int| 0 <= i < ts.len() ==> no_space(#[trigger] ts[i]),
    ensures
        spec_split(spec_join(ts) + seq![' '] + r) == ts + spec_split(r),
    decreases ts.len(),
{
    if ts.len() == 1 {
        lemma_split_token_space(ts[0], r);
        assert(seq![ts[0]] =~= ts);
    } else {
        let rest = ts.subrange(1, ts.len() as int);
        lemma_split_join_then(rest, r);
        assert(spec_join(ts) + seq![' '] + r =~= ts[0] + seq![' '] + (spec_join(rest) + seq![' ']
            + r));
        lemma_split_token_space(ts[0], spec_join(rest) + seq![' '] + r);
        assert(seq![ts[0]] + (rest + spec_split(r)) =~= ts + spec_split(r));
    }
}

/// Character-for-character equality of two string slices.
pub fn str_eq(a: &str, b: &str) -> (r: bool)
    ensures
        r == (a@ == b@),
{
    let n = a.unicode_len();
    if n != b.unicode_len() {
        return false;
    }
    let mut i: usize = 0;
    while i < n
        invariant
            i <= n,
            n == a@.len(),
            n == b@.len(),
            forall|j: int| 0 <= j < i ==> a@[j] == b@[j],
        decreases n - i,
    {
        if a.get_char(i) != b.get_char(i) {
            return false;
        }
        i = i + 1;
    }
    proof {
        assert(a@ =~= b@);
    }
    true
}

/// Splits a line on every single space, as the wire grammar asks.
pub fn split_spaces(s: &str) -> (tokens: Vec<String>)
    ensures
        tokens.deep_view() == spec_split(s@),
{
    let n = s.unicode_len();
    let mut tokens: Vec<String> = Vec::new();
    let mut start: usize = 0;
    let mut i: usize = 0;
    proof {
        assert(s@.subrange(0, n as int) =~= s@);
        assert(tokens.deep_view() =~~= Seq::<Seq<char>>::empty());
        assert(Seq::<Seq<char>>::empty() + spec_split(s@) =~~= spec_split(s@));
    }
    while i < n
        invariant
            start <= i <= n,
            n == s@.len(),
            no_space(s@.subrange(start as int, i as int)),
            spec_split(s@) == tokens.deep_view() + spec_split(s@.subrange(start as int, n as int)),
        decreases n - i,
    {
        let c = s.get_char(i);
        if c == ' ' {
            let tok = s.substring_char(start, i).to_owned();
            let ghost prior = tokens.deep_view();
            proof {
                let head = s@.subrange(start as int, i as int);
                let rest = s@.subrange(i + 1, n as int);
                assert(s@.subrange(start as int, n as int) =~= head + seq![' '] + rest);
                lemma_split_token_space(head, rest);
            }
            tokens.push(tok);
            proof {
                assert(tokens.deep_view() =~~= prior.push(tok@));
                assert(prior + (seq![tok@] + spec_split(s@.subrange(i + 1, n as int)))
                    =~~= prior.push(tok@) + spec_split(s@.subrange(i + 1, n as int)));
            }
            start = i + 1;
        } else {
            proof {
                assert(s@.subrange(start as int, i + 1) =~= s@.subrange(start as int, i as int)
                    + seq![s@[i as int]]);
            }
        }
        i = i + 1;
    }
    let tok = s.substring_char(start, n).to_owned();
    let ghost prior = tokens.deep_view();
    proof {
        lemma_split_no_space(s@.subrange(start as int, n as int));
    }
    tokens.push(tok);
    proof {
        assert(tokens.deep_view() =~~= prior.push(tok@));
        assert(prior + seq![tok@] =~~= prior.push(tok@));
    }
    tokens
}

} // verus!
