//! Escaping and unescaping of `|` and `:`.
//!
//! Bin storage keys are built as `escape(bin) + "::" + key`; the escaping
//! below guarantees that the escaped bin name holds no `:` at all, so the
//! first `:` of a composed key always marks the separator.
use crate::strutil::push_char;
use vstd::prelude::*;

verus! {

/// What one character escapes to: `|` doubles, `:` becomes `|;`,
/// anything else stands alone.
pub open spec fn escape_char(c: char) -> Seq<char> {
    if c == '|' {
        seq!['|', '|']
    } else if c == ':' {
        seq!['|', ';']
    } else {
        seq![c]
    }
}

/// The escaped form of a whole string.
pub open spec fn escape_seq(s: Seq<char>) -> Seq<char>
    decreases s.len(),
{
    if s.len() == 0 {
        Seq::empty()
    } else {
        escape_char(s[0]) + escape_seq(s.drop_first())
    }
}

/// The inverse transform: `|` opens an escape, after which `;` stands for
/// `:` and `|` for itself; a character that was never produced by
/// [`escape_seq`] passes through, and a trailing lone `|` is dropped.
pub open spec fn unescape_seq(s: Seq<char>) -> Seq<char>
    decreases s.len(),
{
    if s.len() == 0 {
        Seq::empty()
    } else if s[0] == '|' {
        if s.len() == 1 {
            Seq::empty()
        } else {
            let c = if s[1] == ';' {
                ':'
            } else {
                s[1]
            };
            seq![c] + unescape_seq(s.skip(2))
        }
    } else {
        seq![s[0]] + unescape_seq(s.drop_first())
    }
}

/// Escaping then unescaping gives every string back unchanged.
pub proof fn lemma_escape_round_trip(s: Seq<char>)
    ensures
        unescape_seq(escape_seq(s)) == s,
    decreases s.len(),
{
    if s.len() == 0 {
        assert(unescape_seq(escape_seq(s)) =~= s);
    } else {
        let rest = s.drop_first();
        lemma_escape_round_trip(rest);
        let e = escape_seq(rest);
        let c = s[0];
        if c == '|' || c == ':' {
            let head = escape_char(c);
            assert(escape_seq(s) == head + e);
            assert((head + e).len() >= 2);
            assert((head + e)[0] == '|');
            assert((head + e)[1] == if c == '|' { '|' } else { ';' });
            assert((head + e).skip(2) =~= e);
            assert(unescape_seq(escape_seq(s)) == seq![c] + unescape_seq(e));
            assert(seq![c] + rest =~= s);
        } else {
            assert(escape_seq(s) == seq![c] + e);
            assert((seq![c] + e)[0] == c);
            assert((seq![c] + e).drop_first() =~= e);
            assert(unescape_seq(escape_seq(s)) == seq![c] + unescape_seq(e));
            assert(seq![c] + rest =~= s);
        }
    }
}

/// Escaping is injective, a corollary of the round trip.
pub proof fn lemma_escape_injective(a: Seq<char>, b: Seq<char>)
    ensures
        escape_seq(a) == escape_seq(b) ==> a == b,
{
    if escape_seq(a) == escape_seq(b) {
        lemma_escape_round_trip(a);
        lemma_escape_round_trip(b);
    }
}

/// An escaped string never holds a `:`.
pub proof fn lemma_escape_no_colon(s: Seq<char>)
    ensures
        forall|i: int| 0 <= i < escape_seq(s).len() ==> escape_seq(s)[i] != ':',
    decreases s.len(),
{
    if s.len() > 0 {
        lemma_escape_no_colon(s.drop_first());
        let head = escape_char(s[0]);
        let e = escape_seq(s.drop_first());
        assert(escape_seq(s) == head + e);
        assert forall|i: int| 0 <= i < (head + e).len() implies (head + e)[i] != ':' by {
            if i < head.len() {
                assert((head + e)[i] == head[i]);
            } else {
                assert((head + e)[i] == e[i - head.len()]);
            }
        }
    }
}

/// Escapes a string: `|` becomes `||` and `:` becomes `|;`.
pub fn escape(s: &str) -> (r: String)
    ensures
        r@ == escape_seq(s@),
{
    let n = s.unicode_len();
    let mut out = String::new();
    let mut i: usize = 0;
    proof {
        assert(s@.skip(0) =~= s@);
        assert(out@ + escape_seq(s@) =~= escape_seq(s@));
    }
    while i < n
        invariant
            n == s@.len(),
            i <= n,
            out@ + escape_seq(s@.skip(i as int)) == escape_seq(s@),
        decreases n - i,
    {
        let c = s.get_char(i);
        proof {
            let tail = s@.skip(i as int);
            assert(tail.len() > 0);
            assert(tail[0] == c);
            assert(tail.drop_first() =~= s@.skip(i + 1));
            assert(escape_seq(tail) == escape_char(c) + escape_seq(s@.skip(i + 1)));
        }
        let ghost prev = out@;
        if c == '|' {
            push_char(&mut out, '|');
            push_char(&mut out, '|');
        } else if c == ':' {
            push_char(&mut out, '|');
            push_char(&mut out, ';');
        } else {
            push_char(&mut out, c);
        }
        proof {
            assert(out@ =~= prev + escape_char(c));
            assert(out@ + escape_seq(s@.skip(i + 1)) =~= prev + escape_seq(s@.skip(i as int)));
        }
        i = i + 1;
    }
    proof {
        assert(s@.skip(n as int) =~= Seq::<char>::empty());
        assert(out@ =~= escape_seq(s@));
    }
    out
}

/// Unescapes a string escaped with [`escape`].
pub fn unescape(s: &str) -> (r: String)
    ensures
        r@ == unescape_seq(s@),
{
    let n = s.unicode_len();
    let mut out = String::new();
    let mut i: usize = 0;
    proof {
        assert(s@.skip(0) =~= s@);
        assert(out@ + unescape_seq(s@) =~= unescape_seq(s@));
    }
    while i < n
        invariant
            n == s@.len(),
            i <= n,
            out@ + unescape_seq(s@.skip(i as int)) == unescape_seq(s@),
        decreases n - i,
    {
        let c = s.get_char(i);
        let ghost tail = s@.skip(i as int);
        proof {
            assert(tail.len() > 0);
            assert(tail[0] == c);
        }
        let ghost prev = out@;
        if c == '|' {
            if i + 1 < n {
                let d = s.get_char(i + 1);
                proof {
                    assert(tail[1] == d);
                    assert(tail.skip(2) =~= s@.skip(i + 2));
                }
                if d == ';' {
                    push_char(&mut out, ':');
                } else {
                    push_char(&mut out, d);
                }
                proof {
                    let dec = if d == ';' {
                        ':'
                    } else {
                        d
                    };
                    assert(unescape_seq(tail) == seq![dec] + unescape_seq(s@.skip(i + 2)));
                    assert(out@ =~= prev.push(dec));
                    assert(prev.push(dec) =~= prev + seq![dec]);
                    assert(out@ + unescape_seq(s@.skip(i + 2)) =~= prev + unescape_seq(tail));
                }
                i = i + 2;
            } else {
                proof {
                    assert(tail.len() == 1);
                    assert(unescape_seq(tail) =~= Seq::<char>::empty());
                    assert(s@.skip(i + 1) =~= Seq::<char>::empty());
                    assert(out@ + unescape_seq(s@.skip(i + 1)) =~= out@ + unescape_seq(tail));
                }
                i = i + 1;
            }
        } else {
            push_char(&mut out, c);
            proof {
                assert(tail.drop_first() =~= s@.skip(i + 1));
                assert(unescape_seq(tail) == seq![c] + unescape_seq(s@.skip(i + 1)));
                assert(out@ =~= prev.push(c));
                assert(prev.push(c) =~= prev + seq![c]);
                assert(out@ + unescape_seq(s@.skip(i + 1)) =~= prev + unescape_seq(tail));
            }
            i = i + 1;
        }
    }
    proof {
        assert(s@.skip(n as int) =~= Seq::<char>::empty());
        assert(out@ =~= unescape_seq(s@));
    }
    out
}

} // verus!
