//! Tribbler interfaces and data structures: the trib record, the service
//! limits, username validation, and the Tribble Order.
use crate::num::is_digit;
use crate::strutil::{lemma_lex_le_antisymmetric, lemma_lex_le_total, lemma_lex_le_transitive,
    lex_le, str_le};
use vstd::prelude::*;
use vstd::relations::sorted_by;

verus! {

/// The largest number of tribs a fetch returns.
pub const MAX_TRIB_FETCH: usize = 100;

/// The largest length of a trib message, in bytes.
pub const MAX_TRIB_LEN: usize = 140;

/// How many distinct users `list_users` reports at most.
pub const MIN_LIST_USER: usize = 20;

/// The largest number of users one user may follow.
pub const MAX_FOLLOWING: usize = 2000;

/// The largest length of a user name, in characters.
pub const MAX_USERNAME_LEN: usize = 15;

/// One microblog post.
pub struct Trib {
    /// who posted it
    pub user: String,
    /// the text of the post
    pub message: String,
    /// posting time, seconds since the epoch
    pub time: u64,
    /// the logical clock value issued for the post
    pub clock: u64,
}

/// The mathematical image of a [`Trib`].
pub struct TribView {
    /// who posted it
    pub user: Seq<char>,
    /// the text of the post
    pub message: Seq<char>,
    /// posting time
    pub time: u64,
    /// the logical clock value
    pub clock: u64,
}

impl DeepView for Trib {
    type V = TribView;

    open spec fn deep_view(&self) -> TribView {
        TribView { user: self.user@, message: self.message@, time: self.time, clock: self.clock }
    }
}

impl View for Trib {
    type V = TribView;

    open spec fn view(&self) -> TribView {
        self.deep_view()
    }
}

impl Clone for Trib {
    /// An exact copy of the trib.
    fn clone(&self) -> (r: Trib)
        ensures
            r@ == self@,
    {
        Trib {
            user: self.user.clone(),
            message: self.message.clone(),
            time: self.time,
            clock: self.clock,
        }
    }
}

/// Whether a character is a lower-case letter.
pub open spec fn is_lower(c: char) -> bool {
    'a' <= c && c <= 'z'
}

/// What a valid user name is: one to [`MAX_USERNAME_LEN`] characters,
/// starting with a lower-case letter, holding only lower-case letters and
/// decimal digits.
pub open spec fn valid_username(s: Seq<char>) -> bool {
    &&& 1 <= s.len() <= MAX_USERNAME_LEN
    &&& is_lower(s[0])
    &&& forall|i: int| 0 <= i < s.len() ==> is_lower(#[trigger] s[i]) || is_digit(s[i])
}

/// Checks whether a string is a valid user name.
pub fn is_valid_username(s: &str) -> (r: bool)
    ensures
        r == valid_username(s@),
{
    let n = s.unicode_len();
    if n < 1 || n > MAX_USERNAME_LEN {
        return false;
    }
    let first = s.get_char(0);
    if !(first >= 'a' && first <= 'z') {
        return false;
    }
    let mut i: usize = 0;
    while i < n
        invariant
            n == s@.len(),
            i <= n,
            forall|j: int| 0 <= j < i ==> is_lower(#[trigger] s@[j]) || is_digit(s@[j]),
        decreases n - i,
    {
        let c = s.get_char(i);
        if !((c >= 'a' && c <= 'z') || (c >= '0' && c <= '9')) {
            proof {
                assert(!(is_lower(s@[i as int]) || is_digit(s@[i as int])));
            }
            return false;
        }
        i = i + 1;
    }
    true
}

/// The Tribble Order: ascending by clock, then time, then user, then
/// message.
pub open spec fn trib_le(a: TribView, b: TribView) -> bool {
    if a.clock != b.clock {
        a.clock < b.clock
    } else if a.time != b.time {
        a.time < b.time
    } else if a.user != b.user {
        lex_le(a.user, b.user)
    } else {
        lex_le(a.message, b.message)
    }
}

/// The Tribble Order is total.
pub proof fn lemma_trib_le_total(a: TribView, b: TribView)
    ensures
        trib_le(a, b) || trib_le(b, a),
{
    lemma_lex_le_total(a.user, b.user);
    lemma_lex_le_total(a.message, b.message);
}

/// The Tribble Order is transitive.
pub proof fn lemma_trib_le_transitive(a: TribView, b: TribView, c: TribView)
    requires
        trib_le(a, b),
        trib_le(b, c),
    ensures
        trib_le(a, c),
{
    if a.clock == b.clock && b.clock == c.clock && a.time == b.time && b.time == c.time {
        if a.user == b.user {
            if b.user == c.user {
                lemma_lex_le_transitive(a.message, b.message, c.message);
            }
        } else if b.user == c.user {
        } else {
            lemma_lex_le_transitive(a.user, b.user, c.user);
            if a.user == c.user {
                lemma_lex_le_antisymmetric(b.user, c.user);
            }
        }
    }
}

/// Executable Tribble Order comparison.
pub fn trib_le_exec(a: &Trib, b: &Trib) -> (r: bool)
    ensures
        r == trib_le(a@, b@),
{
    if a.clock != b.clock {
        return a.clock < b.clock;
    }
    if a.time != b.time {
        return a.time < b.time;
    }
    let ule = str_le(a.user.as_str(), b.user.as_str());
    let uge = str_le(b.user.as_str(), a.user.as_str());
    if !(ule && uge) {
        proof {
            if ule && uge {
            } else {
                if a.user@ == b.user@ {
                    lemma_lex_le_total(a.user@, b.user@);
                }
            }
            if ule {
                assert(a.user@ != b.user@);
            }
        }
        return ule;
    }
    proof {
        lemma_lex_le_antisymmetric(a.user@, b.user@);
    }
    str_le(a.message.as_str(), b.message.as_str())
}

/// Sorts tribs ascending by the Tribble Order with an insertion sort.
pub fn sort_tribs(v: Vec<Trib>) -> (r: Vec<Trib>)
    ensures
        r.deep_view().to_multiset() == v.deep_view().to_multiset(),
        sorted_by(r.deep_view(), |a: TribView, b: TribView| trib_le(a, b)),
        forall|m1: int, m2: int|
            0 <= m1 < m2 < r.deep_view().len() ==> trib_le(
                #[trigger] r.deep_view()[m1],
                #[trigger] r.deep_view()[m2],
            ),
{
    broadcast use vstd::seq_lib::group_to_multiset_ensures;

    let ghost leq = |a: TribView, b: TribView| trib_le(a, b);
    let ghost dv0 = v.deep_view();
    let mut rest = v;
    let mut out: Vec<Trib> = Vec::new();
    proof {
        assert(out.deep_view() =~= Seq::<TribView>::empty());
        assert(out.deep_view().to_multiset().add(rest.deep_view().to_multiset())
            =~= dv0.to_multiset());
    }
    while rest.len() > 0
        invariant
            out.deep_view().to_multiset().add(rest.deep_view().to_multiset())
                == dv0.to_multiset(),
            sorted_by(out.deep_view(), leq),
            leq == (|a: TribView, b: TribView| trib_le(a, b)),
        decreases rest@.len(),
    {
        let ghost rdv = rest.deep_view();
        let x = rest.remove(0);
        proof {
            assert(rest.deep_view() =~= rdv.remove(0));
            assert(rdv[0] == x.deep_view());
            rdv.to_multiset_ensures();
            assert(rdv.remove(0).to_multiset() =~= rdv.to_multiset().remove(rdv[0]));
            assert(rdv.contains(rdv[0]));
            assert(rdv.to_multiset().count(rdv[0]) > 0);
        }
        let ghost odv = out.deep_view();
        let mut j: usize = 0;
        while j < out.len() && trib_le_exec(&out[j], &x)
            invariant
                j <= out@.len(),
                out.deep_view() == odv,
                out@.len() == odv.len(),
                forall|m: int| 0 <= m < j ==> trib_le(#[trigger] odv[m], x.deep_view()),
            decreases out@.len() - j,
        {
            proof {
                assert(odv[j as int] == out@[j as int].deep_view());
            }
            j = j + 1;
        }
        proof {
            if j < out@.len() {
                assert(odv[j as int] == out@[j as int].deep_view());
                lemma_trib_le_total(odv[j as int], x.deep_view());
                assert(trib_le(x.deep_view(), odv[j as int]));
            }
        }
        let ghost xs = x.deep_view();
        out.insert(j, x);
        proof {
            let ndv = out.deep_view();
            assert(ndv =~= odv.insert(j as int, xs));
            assert forall|m: int, n: int| 0 <= m < n < ndv.len() implies leq(ndv[m], ndv[n]) by {
                if n < j {
                    assert(ndv[m] == odv[m] && ndv[n] == odv[n]);
                } else if n == j {
                    assert(ndv[m] == odv[m]);
                    assert(ndv[n] == xs);
                } else {
                    assert(ndv[n] == odv[n - 1]);
                    if m < j {
                        assert(ndv[m] == odv[m]);
                        if m < n - 1 {
                            assert(leq(odv[m], odv[n - 1]));
                        }
                    } else if m == j {
                        assert(ndv[m] == xs);
                        assert(trib_le(xs, odv[j as int]));
                        if j < n - 1 {
                            assert(leq(odv[j as int], odv[n - 1]));
                            lemma_trib_le_transitive(xs, odv[j as int], odv[n - 1]);
                        }
                    } else {
                        assert(ndv[m] == odv[m - 1]);
                        assert(leq(odv[m - 1], odv[n - 1]));
                    }
                }
            }
            ndv.to_multiset_ensures();
            assert(ndv.remove(j as int) =~= odv);
            assert(ndv[j as int] == xs);
            assert(ndv.remove(j as int).to_multiset() =~= ndv.to_multiset().remove(xs));
            assert(odv.to_multiset() =~= ndv.to_multiset().remove(xs));
            assert(ndv.contains(xs)) by {
                assert((j as int) < ndv.len() && ndv[j as int] == xs);
            }
            assert(ndv.to_multiset().count(xs) > 0);
            assert(ndv.to_multiset() =~= odv.to_multiset().insert(xs));
            assert(ndv.to_multiset().add(rest.deep_view().to_multiset()) =~= dv0.to_multiset());
        }
    }
    proof {
        assert(rest.deep_view() =~= Seq::<TribView>::empty());
        assert(out.deep_view().to_multiset() =~= dv0.to_multiset());
        assert forall|m1: int, m2: int|
            0 <= m1 < m2 < out.deep_view().len() implies trib_le(
            #[trigger] out.deep_view()[m1],
            #[trigger] out.deep_view()[m2],
        ) by {
            assert(leq(out.deep_view()[m1], out.deep_view()[m2]));
        }
    }
    out
}

/// What garbage collection leaves of a post log: once it outgrows twice
/// the fetch window, only the newest window's worth stays.
pub open spec fn gc_window(l: Seq<TribView>) -> Seq<TribView> {
    if l.len() > 2 * MAX_TRIB_FETCH {
        l.subrange(l.len() - MAX_TRIB_FETCH, l.len() as int)
    } else {
        l
    }
}

/// The newest `limit` entries of an ascending list: its tail.
pub fn take_newest(v: Vec<Trib>, limit: usize) -> (r: Vec<Trib>)
    ensures
        r.deep_view() == if v.deep_view().len() <= limit {
            v.deep_view()
        } else {
            v.deep_view().subrange(
                v.deep_view().len() - limit,
                v.deep_view().len() as int,
            )
        },
{
    let ghost dv = v.deep_view();
    let mut v = v;
    if v.len() <= limit {
        proof {
            assert(v.deep_view() =~= dv);
        }
        return v;
    }
    let start = v.len() - limit;
    let tail = v.split_off(start);
    proof {
        assert(tail.deep_view() =~= dv.subrange(dv.len() - limit, dv.len() as int));
    }
    tail
}

} // verus!
